//! What the writer writes, the reader reads back.
use vstd::prelude::*;
use crate::text::{
    clean_spec, dots_at, is_first_char, is_first_dots,
    is_ws_spec, lemma_first_char_unique, lemma_first_dots_unique, trim_commas_spec,
    trim_end_spec, trim_start_spec,
};
use crate::reader::{
    cluster_tag, initial_state, is_header_line, lemma_run_append, member_id_spec,
    parse_spec, run_spec, step_spec, ReadState,
};
use crate::diff::{member_sets, set_of_sets_spec};
use crate::writer::{
    annotation_spec, block_spec, decimal_spec, header_line_spec, is_digit, lemma_decimal_digits,
    length_at, marker_spec, member_line_spec, member_lines_spec, ClstrUnit,
};

verus! {

/// A header that reads back as itself: no `...` within it, not ending in
/// `.` (which would run into the `...` after it), no surrounding whitespace
/// and no trailing comma.
pub open spec fn plain_header(h: Seq<char>) -> bool {
    &&& forall|j: int| 0 <= j < h.len() ==> !dots_at(h, j)
    &&& h.len() > 0 ==> {
        &&& !is_ws_spec(h[0])
        &&& !is_ws_spec(h.last())
        &&& h.last() != ','
        &&& h.last() != '.'
    }
}

/// The lines of a report holding `clusters` in order, the i-th numbered
/// `ids[i]`.
pub open spec fn written_spec(
    ids: Seq<usize>,
    clusters: Seq<Seq<usize>>,
    headers: Seq<Seq<char>>,
    lengths: Option<Seq<u32>>,
    unit: ClstrUnit,
) -> Seq<Seq<char>>
    decreases clusters.len(),
{
    if clusters.len() == 0 {
        Seq::empty()
    } else {
        written_spec(ids, clusters.drop_last(), headers, lengths, unit) + block_spec(
            ids[clusters.len() - 1] as nat,
            clusters.last(),
            headers,
            lengths,
            unit,
        )
    }
}

/// The headers that the indices of `members` name.
pub open spec fn names_of(members: Seq<usize>, headers: Seq<Seq<char>>) -> Seq<Seq<char>> {
    members.map_values(|i: usize| headers[i as int])
}

/// The headers that the indices of each cluster name.
pub open spec fn named_clusters(clusters: Seq<Seq<usize>>, headers: Seq<Seq<char>>) -> Seq<Seq<Seq<char>>> {
    clusters.map_values(|c: Seq<usize>| names_of(c, headers))
}

proof fn lemma_clean_plain(h: Seq<char>)
    requires
        plain_header(h),
    ensures
        clean_spec(h) == h,
{
    assert(trim_start_spec(h) == h);
    assert(trim_end_spec(h) == h);
    assert(trim_commas_spec(h) == h);
}

/// A member line reads back as its header.
proof fn lemma_member_line(pos: nat, h: Seq<char>, len: Option<u32>, unit: ClstrUnit)
    requires
        plain_header(h),
    ensures
        member_line_spec(pos, h, len, unit).len() > 0,
        !is_header_line(member_line_spec(pos, h, len, unit)),
        member_id_spec(member_line_spec(pos, h, len, unit)) == Some(h),
{
    let l = member_line_spec(pos, h, len, unit);
    let ann = annotation_spec(len, unit);
    let pre = decimal_spec(pos) + seq!['\t'] + ann;
    let dots = seq!['.', '.', '.'];
    lemma_decimal_digits(pos);
    assert(is_digit(decimal_spec(pos)[0]));
    assert(l[0] == decimal_spec(pos)[0]);
    assert(!is_header_line(l)) by {
        if l.len() >= 8 && l.subrange(0, 8) == cluster_tag() {
            assert(l.subrange(0, 8)[0] == l[0]);
            assert(l.subrange(0, 8)[0] == '>');
        }
    }
    let p = pre.len() as int;
    assert(l =~= pre + seq!['>'] + h + dots + marker_spec(pos));
    assert forall|j: int| 0 <= j < p implies pre[j] != '>' by {
        let dl = decimal_spec(pos).len() as int;
        if j < dl {
            assert(is_digit(decimal_spec(pos)[j]));
        } else if j > dl {
            match (len, crate::writer::unit_suffix_spec(unit)) {
                (Some(n), Some(s)) => {
                    lemma_decimal_digits(n as nat);
                    let k = j - dl - 1;
                    if k < decimal_spec(n as nat).len() {
                        assert(ann[k] == decimal_spec(n as nat)[k]);
                        assert(is_digit(decimal_spec(n as nat)[k]));
                    }
                },
                _ => {},
            }
        }
    }
    assert(is_first_char(l, '>', p));
    lemma_first_char_unique(l, '>', p);
    let rest = l.subrange(p + 1, l.len() as int);
    assert(rest =~= h + dots + marker_spec(pos));
    let hl = h.len() as int;
    assert(dots_at(rest, hl));
    assert forall|j: int| 0 <= j < hl implies !dots_at(rest, j) by {
        if dots_at(rest, j) {
            if j + 3 <= hl {
                assert(dots_at(h, j));
            } else {
                assert(rest[hl - 1] == h.last());
            }
        }
    }
    assert(is_first_dots(rest, hl));
    lemma_first_dots_unique(rest, hl);
    assert(rest.subrange(0, hl) =~= h);
    lemma_clean_plain(h);
}

/// The member lines of a cluster add its headers, in order, to the cluster in
/// progress.
proof fn lemma_member_lines(
    st: ReadState,
    members: Seq<usize>,
    headers: Seq<Seq<char>>,
    lengths: Option<Seq<u32>>,
    unit: ClstrUnit,
)
    requires
        forall|p: int| 0 <= p < members.len() ==> members[p] < headers.len(),
        forall|i: int| 0 <= i < headers.len() ==> plain_header(#[trigger] headers[i]),
    ensures
        run_spec(st, member_lines_spec(members, headers, lengths, unit)) == (st.0, st.1 + names_of(members, headers)),
    decreases members.len(),
{
    let ml = member_lines_spec(members, headers, lengths, unit);
    if members.len() == 0 {
        assert(st.1 + names_of(members, headers) =~= st.1);
    } else {
        let m = members.len() - 1;
        assert(ml.drop_last() =~= member_lines_spec(members.drop_last(), headers, lengths, unit));
        lemma_member_lines(st, members.drop_last(), headers, lengths, unit);
        let h = headers[members[m] as int];
        lemma_member_line(m as nat, h, length_at(lengths, members[m] as int), unit);
        assert(ml.last() == member_line_spec(m as nat, h, length_at(lengths, members[m] as int), unit));
        assert(st.1 + names_of(members, headers) =~= (st.1 + names_of(members.drop_last(), headers)).push(h));
    }
}

/// A cluster block ends the cluster in progress, if any, and reads back as
/// the cluster's headers.
proof fn lemma_block(
    st: ReadState,
    id: nat,
    members: Seq<usize>,
    headers: Seq<Seq<char>>,
    lengths: Option<Seq<u32>>,
    unit: ClstrUnit,
)
    requires
        forall|p: int| 0 <= p < members.len() ==> members[p] < headers.len(),
        forall|i: int| 0 <= i < headers.len() ==> plain_header(#[trigger] headers[i]),
    ensures
        run_spec(st, block_spec(id, members, headers, lengths, unit)) == (
            if st.1.len() > 0 { st.0.push(st.1) } else { st.0 },
            names_of(members, headers),
        ),
{
    let hd = header_line_spec(id);
    let ml = member_lines_spec(members, headers, lengths, unit);
    lemma_run_append(st, seq![hd], ml);
    assert(seq![hd].drop_last() =~= Seq::<Seq<char>>::empty());
    lemma_decimal_digits(id);
    assert(hd.subrange(0, 8) =~= cluster_tag());
    assert(is_header_line(hd));
    let st2 = step_spec(st, hd);
    assert(run_spec(st, Seq::<Seq<char>>::empty()) == st);
    assert(seq![hd].last() == hd);
    assert(run_spec(st, seq![hd]) == st2);
    lemma_member_lines(st2, members, headers, lengths, unit);
    assert(st2.1 + names_of(members, headers) =~= names_of(members, headers)) by {
        assert(st2.1 =~= Seq::<Seq<char>>::empty());
    }
}

proof fn lemma_written_state(
    ids: Seq<usize>,
    clusters: Seq<Seq<usize>>,
    headers: Seq<Seq<char>>,
    lengths: Option<Seq<u32>>,
    unit: ClstrUnit,
)
    requires
        ids.len() >= clusters.len(),
        forall|c: int| 0 <= c < clusters.len() ==> (#[trigger] clusters[c]).len() > 0,
        forall|c: int, p: int|
            0 <= c < clusters.len() && 0 <= p < clusters[c].len() ==> #[trigger] clusters[c][p] < headers.len(),
        forall|i: int| 0 <= i < headers.len() ==> plain_header(#[trigger] headers[i]),
    ensures
        clusters.len() == 0 ==> run_spec(initial_state(), written_spec(ids, clusters, headers, lengths, unit))
            == initial_state(),
        clusters.len() > 0 ==> run_spec(initial_state(), written_spec(ids, clusters, headers, lengths, unit)) == (
            named_clusters(clusters, headers).drop_last(),
            named_clusters(clusters, headers).last(),
        ),
    decreases clusters.len(),
{
    if clusters.len() > 0 {
        let k = clusters.len() - 1;
        let prev = clusters.drop_last();
        lemma_written_state(ids, prev, headers, lengths, unit);
        let w = written_spec(ids, prev, headers, lengths, unit);
        let b = block_spec(ids[k] as nat, clusters[k], headers, lengths, unit);
        lemma_run_append(initial_state(), w, b);
        let st = run_spec(initial_state(), w);
        assert forall|p: int| 0 <= p < clusters[k].len() implies clusters[k][p] < headers.len() by {
            assert(clusters[k][p] < headers.len());
        }
        lemma_block(st, ids[k] as nat, clusters[k], headers, lengths, unit);
        let e = named_clusters(clusters, headers);
        let ep = named_clusters(prev, headers);
        if k == 0 {
            assert(e.drop_last() =~= Seq::<Seq<Seq<char>>>::empty());
        } else {
            assert(ep.last().len() > 0) by {
                assert(prev[k - 1].len() > 0);
            }
            assert(ep.drop_last().push(ep.last()) =~= e.drop_last());
        }
    }
}

/// Writing clusters and parsing the lines written gives back the clusters:
/// the same headers, in the same order, representative first, whatever the
/// numbering, lengths and unit. It holds for nonempty clusters of valid
/// indices into headers that read back as themselves.
pub proof fn lemma_round_trip(
    ids: Seq<usize>,
    clusters: Seq<Seq<usize>>,
    headers: Seq<Seq<char>>,
    lengths: Option<Seq<u32>>,
    unit: ClstrUnit,
)
    requires
        ids.len() == clusters.len(),
        forall|c: int| 0 <= c < clusters.len() ==> (#[trigger] clusters[c]).len() > 0,
        forall|c: int, p: int|
            0 <= c < clusters.len() && 0 <= p < clusters[c].len() ==> #[trigger] clusters[c][p] < headers.len(),
        forall|i: int| 0 <= i < headers.len() ==> plain_header(#[trigger] headers[i]),
    ensures
        parse_spec(written_spec(ids, clusters, headers, lengths, unit)) == named_clusters(clusters, headers),
{
    lemma_written_state(ids, clusters, headers, lengths, unit);
    let e = named_clusters(clusters, headers);
    if clusters.len() == 0 {
        assert(e =~= Seq::<Seq<Seq<char>>>::empty());
    } else {
        assert(e.last().len() > 0) by {
            assert(clusters[clusters.len() - 1].len() > 0);
        }
        assert(e.drop_last().push(e.last()) =~= e);
    }
}

/// Two reports of the same clusters, each cluster with the same members,
/// compare equal whatever their numbering, lengths, units and choice of
/// representative.
pub proof fn lemma_annotation_independent(
    ids1: Seq<usize>,
    clusters1: Seq<Seq<usize>>,
    lengths1: Option<Seq<u32>>,
    unit1: ClstrUnit,
    ids2: Seq<usize>,
    clusters2: Seq<Seq<usize>>,
    lengths2: Option<Seq<u32>>,
    unit2: ClstrUnit,
    headers: Seq<Seq<char>>,
)
    requires
        ids1.len() == clusters1.len(),
        ids2.len() == clusters2.len(),
        clusters1.len() == clusters2.len(),
        forall|c: int| 0 <= c < clusters1.len() ==> (#[trigger] clusters1[c]).len() > 0,
        forall|c: int| 0 <= c < clusters1.len() ==> (#[trigger] clusters1[c]).to_set() == clusters2[c].to_set(),
        forall|c: int, p: int|
            0 <= c < clusters1.len() && 0 <= p < clusters1[c].len() ==> #[trigger] clusters1[c][p] < headers.len(),
        forall|i: int| 0 <= i < headers.len() ==> plain_header(#[trigger] headers[i]),
    ensures
        set_of_sets_spec(parse_spec(written_spec(ids1, clusters1, headers, lengths1, unit1)))
            == set_of_sets_spec(parse_spec(written_spec(ids2, clusters2, headers, lengths2, unit2))),
{
    assert forall|c: int| 0 <= c < clusters2.len() implies (#[trigger] clusters2[c]).len() > 0 by {
        assert(clusters1[c].contains(clusters1[c][0]));
        assert(clusters1[c].to_set().contains(clusters1[c][0]));
        assert(clusters2[c].to_set().contains(clusters1[c][0]));
    }
    assert forall|c: int, p: int| 0 <= c < clusters2.len() && 0 <= p < clusters2[c].len()
        implies #[trigger] clusters2[c][p] < headers.len() by {
        assert(clusters2[c].to_set().contains(clusters2[c][p]));
        assert(clusters1[c].to_set().contains(clusters2[c][p]));
        let q = choose|q: int| 0 <= q < clusters1[c].len() && clusters1[c][q] == clusters2[c][p];
        assert(clusters1[c][q] < headers.len());
    }
    lemma_round_trip(ids1, clusters1, headers, lengths1, unit1);
    lemma_round_trip(ids2, clusters2, headers, lengths2, unit2);
    let e1 = named_clusters(clusters1, headers);
    let e2 = named_clusters(clusters2, headers);
    assert forall|c: int| 0 <= c < clusters1.len() implies #[trigger] member_sets(e1)[c] == member_sets(e2)[c] by {
        let n1 = names_of(clusters1[c], headers);
        let n2 = names_of(clusters2[c], headers);
        assert forall|x: Seq<char>| n1.contains(x) <==> n2.contains(x) by {
            if n1.contains(x) {
                let p = choose|p: int| 0 <= p < n1.len() && n1[p] == x;
                assert(clusters1[c].to_set().contains(clusters1[c][p]));
                assert(clusters2[c].to_set().contains(clusters1[c][p]));
                let q = choose|q: int| 0 <= q < clusters2[c].len() && clusters2[c][q] == clusters1[c][p];
                assert(n2[q] == x);
            }
            if n2.contains(x) {
                let p = choose|p: int| 0 <= p < n2.len() && n2[p] == x;
                assert(clusters2[c].to_set().contains(clusters2[c][p]));
                assert(clusters1[c].to_set().contains(clusters2[c][p]));
                let q = choose|q: int| 0 <= q < clusters1[c].len() && clusters1[c][q] == clusters2[c][p];
                assert(n1[q] == x);
            }
        }
        assert(n1.to_set() =~= n2.to_set());
    }
    assert(member_sets(e1) =~= member_sets(e2));
}

} // verus!

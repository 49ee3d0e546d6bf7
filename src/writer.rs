//! Rendering clusters as report lines.
use vstd::prelude::*;
use crate::reader::cluster_tag;

verus! {

/// Unit for sequence length annotations.
#[derive(Clone, Copy, Debug, PartialEq, Eq, Structural)]
pub enum ClstrUnit {
    /// Nucleotide lengths: `123nt, `
    Nt,
    /// Amino acid lengths: `456aa, `
    Aa,
    /// Do not print lengths.
    NoLength,
}

/// The unit's suffix after a length, if lengths are printed.
pub open spec fn unit_suffix_spec(u: ClstrUnit) -> Option<Seq<char>> {
    match u {
        ClstrUnit::Nt => Some(seq!['n', 't']),
        ClstrUnit::Aa => Some(seq!['a', 'a']),
        ClstrUnit::NoLength => None,
    }
}

impl ClstrUnit {
    /// The suffix written after a length, or `None` where lengths are left out.
    pub fn suffix(self) -> (r: Option<&'static str>)
        ensures
            match r {
                Some(s) => unit_suffix_spec(self) == Some(s@),
                None => unit_suffix_spec(self) is None,
            },
    {
        proof {
            reveal_strlit("nt");
            reveal_strlit("aa");
        }
        match self {
            ClstrUnit::Nt => Some("nt"),
            ClstrUnit::Aa => Some("aa"),
            ClstrUnit::NoLength => None,
        }
    }
}

/// The character of a decimal digit.
pub open spec fn digit_spec(d: nat) -> char {
    seq!['0', '1', '2', '3', '4', '5', '6', '7', '8', '9'][d as int]
}

/// The decimal representation of `n`, without leading zeros.
pub open spec fn decimal_spec(n: nat) -> Seq<char>
    decreases n,
{
    if n < 10 {
        seq![digit_spec(n)]
    } else {
        decimal_spec(n / 10).push(digit_spec(n % 10))
    }
}

/// Whether `c` is one of `0` to `9`.
pub open spec fn is_digit(c: char) -> bool {
    '0' as u32 <= c as u32 <= '9' as u32
}

/// Every character of a decimal representation is a digit.
pub proof fn lemma_decimal_digits(n: nat)
    ensures
        decimal_spec(n).len() > 0,
        forall|i: int|
            0 <= i < decimal_spec(n).len() ==> is_digit(#[trigger] decimal_spec(n)[i]),
    decreases n,
{
    if n >= 10 {
        lemma_decimal_digits(n / 10);
        assert(forall|i: int|
            0 <= i < decimal_spec(n).len() - 1 ==> decimal_spec(n)[i] == decimal_spec(n / 10)[i]);
    }
}

fn digit_str(d: usize) -> (r: &'static str)
    requires
        d < 10,
    ensures
        r@ == seq![digit_spec(d as nat)],
{
    proof {
        reveal_strlit("0");
        reveal_strlit("1");
        reveal_strlit("2");
        reveal_strlit("3");
        reveal_strlit("4");
        reveal_strlit("5");
        reveal_strlit("6");
        reveal_strlit("7");
        reveal_strlit("8");
        reveal_strlit("9");
    }
    let r = if d == 0 {
        "0"
    } else if d == 1 {
        "1"
    } else if d == 2 {
        "2"
    } else if d == 3 {
        "3"
    } else if d == 4 {
        "4"
    } else if d == 5 {
        "5"
    } else if d == 6 {
        "6"
    } else if d == 7 {
        "7"
    } else if d == 8 {
        "8"
    } else {
        "9"
    };
    assert(r@ =~= seq![digit_spec(d as nat)]);
    r
}

/// Appends the decimal representation of `n` to `out`.
fn push_decimal(out: &mut String, n: usize)
    ensures
        final(out)@ == old(out)@ + decimal_spec(n as nat),
    decreases n,
{
    if n >= 10 {
        push_decimal(out, n / 10);
    }
    out.append(digit_str(n % 10));
    assert(old(out)@ + decimal_spec(n as nat) =~= if n >= 10 {
        old(out)@ + decimal_spec((n / 10) as nat) + seq![digit_spec((n % 10) as nat)]
    } else {
        old(out)@ + seq![digit_spec((n % 10) as nat)]
    });
}

/// The views of a sequence of strings.
pub open spec fn strings_view(s: Seq<String>) -> Seq<Seq<char>> {
    s.map_values(|x: String| x@)
}

/// The length recorded for index `idx`, if there is a table and it has one.
pub open spec fn length_at(lengths: Option<Seq<u32>>, idx: int) -> Option<u32> {
    match lengths {
        Some(ls) => if 0 <= idx < ls.len() {
            Some(ls[idx])
        } else {
            None
        },
        None => None,
    }
}

/// The line that opens cluster `id`: `>Cluster {id}`.
pub open spec fn header_line_spec(id: nat) -> Seq<char> {
    cluster_tag() + seq![' '] + decimal_spec(id)
}

/// The `{length}{unit}, ` annotation, where there is a length and the unit
/// prints one.
pub open spec fn annotation_spec(len: Option<u32>, unit: ClstrUnit) -> Seq<char> {
    match (len, unit_suffix_spec(unit)) {
        (Some(n), Some(s)) => decimal_spec(n as nat) + s + seq![',', ' '],
        _ => Seq::empty(),
    }
}

/// The marker after a member: ` *` for the representative at position 0.
pub open spec fn marker_spec(pos: nat) -> Seq<char> {
    if pos == 0 {
        seq![' ', '*']
    } else {
        Seq::empty()
    }
}

/// The line of the member at `pos` of its cluster:
/// `{pos}\t[{length}{unit}, ]>{header}...[ *]`.
pub open spec fn member_line_spec(pos: nat, h: Seq<char>, len: Option<u32>, unit: ClstrUnit) -> Seq<char> {
    decimal_spec(pos) + seq!['\t'] + annotation_spec(len, unit) + seq!['>'] + h + seq!['.', '.', '.']
        + marker_spec(pos)
}

/// One line per member, in the order given.
pub open spec fn member_lines_spec(
    members: Seq<usize>,
    headers: Seq<Seq<char>>,
    lengths: Option<Seq<u32>>,
    unit: ClstrUnit,
) -> Seq<Seq<char>> {
    Seq::new(
        members.len(),
        |p: int|
            member_line_spec(
                p as nat,
                headers[members[p] as int],
                length_at(lengths, members[p] as int),
                unit,
            ),
    )
}

/// The lines of one cluster block: its header line, then one line per member.
pub open spec fn block_spec(
    id: nat,
    members: Seq<usize>,
    headers: Seq<Seq<char>>,
    lengths: Option<Seq<u32>>,
    unit: ClstrUnit,
) -> Seq<Seq<char>> {
    seq![header_line_spec(id)] + member_lines_spec(members, headers, lengths, unit)
}

/// The view of an optional table of lengths.
pub open spec fn lengths_view(lengths: Option<&[u32]>) -> Option<Seq<u32>> {
    match lengths {
        Some(ls) => Some(ls@),
        None => None,
    }
}

fn member_line(pos: usize, h: &str, len: Option<u32>, unit: ClstrUnit) -> (r: String)
    ensures
        r@ == member_line_spec(pos as nat, h@, len, unit),
{
    proof {
        reveal_strlit("\t");
        reveal_strlit(", ");
        reveal_strlit(">");
        reveal_strlit("...");
        reveal_strlit(" *");
    }
    let mut s = String::new();
    push_decimal(&mut s, pos);
    s.append("\t");
    let ghost before = s@;
    match len {
        Some(n) => match unit.suffix() {
            Some(suf) => {
                push_decimal(&mut s, n as usize);
                s.append(suf);
                s.append(", ");
            },
            None => {},
        },
        None => {},
    }
    assert(s@ =~= before + annotation_spec(len, unit));
    s.append(">");
    s.append(h);
    s.append("...");
    if pos == 0 {
        s.append(" *");
    }
    assert(s@ =~= member_line_spec(pos as nat, h@, len, unit));
    s
}

/// Collects the lines of a cluster report, one cluster block at a time.
pub struct ClstrWriter {
    lines: Vec<String>,
}

impl View for ClstrWriter {
    type V = Seq<Seq<char>>;

    closed spec fn view(&self) -> Seq<Seq<char>> {
        self.lines.deep_view()
    }
}

impl ClstrWriter {
    /// A writer with no line yet.
    pub fn new() -> (r: Self)
        ensures
            r@ == Seq::<Seq<char>>::empty(),
    {
        let r = ClstrWriter { lines: Vec::new() };
        assert(r@ =~= Seq::<Seq<char>>::empty());
        r
    }

    /// Writes a single cluster block.
    ///
    /// - `cluster_id` — numeric ID for the header line, written as given.
    /// - `members` — indices into `headers` (and optionally `lengths`).
    /// - `headers` — per-sequence display names (printed after `>`).
    /// - `lengths` — optional lengths aligned with `headers`.
    /// - `unit` — how to format the length prefix (or omit).
    ///
    /// The first entry in `members` is the representative and is marked
    /// with `*` at the end of its line.
    pub fn write_cluster(
        &mut self,
        cluster_id: usize,
        members: &[usize],
        headers: &[String],
        lengths: Option<&[u32]>,
        unit: ClstrUnit,
    )
        requires
            forall|p: int| 0 <= p < members@.len() ==> members@[p] < headers@.len(),
        ensures
            final(self)@ == old(self)@ + block_spec(
                cluster_id as nat,
                members@,
                strings_view(headers@),
                lengths_view(lengths),
                unit,
            ),
    {
        proof {
            reveal_strlit(">Cluster ");
        }
        let ghost hs = strings_view(headers@);
        let ghost ls = lengths_view(lengths);
        let ghost start = self@;
        let mut head = String::from_str(">Cluster ");
        push_decimal(&mut head, cluster_id);
        assert(head@ =~= header_line_spec(cluster_id as nat));
        self.lines.push(head);
        assert(self@ =~= start + block_spec(cluster_id as nat, members@.subrange(0, 0), hs, ls, unit));
        let mut pos: usize = 0;
        while pos < members.len()
            invariant
                pos <= members@.len(),
                forall|p: int| 0 <= p < members@.len() ==> members@[p] < headers@.len(),
                hs == strings_view(headers@),
                ls == lengths_view(lengths),
                self@ == start + block_spec(cluster_id as nat, members@.subrange(0, pos as int), hs, ls, unit),
            decreases members@.len() - pos,
        {
            let idx = members[pos];
            let len = match lengths {
                Some(t) => if idx < t.len() {
                    Some(t[idx])
                } else {
                    None
                },
                None => None,
            };
            let line = member_line(pos, headers[idx].as_str(), len, unit);
            let ghost before = self@;
            self.lines.push(line);
            pos += 1;
            assert(self@ =~= before.push(line@));
            assert(self@ =~= start + block_spec(cluster_id as nat, members@.subrange(0, pos as int), hs, ls, unit));
        }
        assert(members@.subrange(0, pos as int) =~= members@);
    }

    /// Hands out the lines written so far; each is to be followed by a line
    /// terminator in the report.
    pub fn finish(self) -> (r: Vec<String>)
        ensures
            r.deep_view() == self@,
    {
        self.lines
    }
}

} // verus!

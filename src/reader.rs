//! The line grammar of a cluster report, and a parser that applies it.
use vstd::prelude::*;
use crate::text::{clean_bounds, clean_spec, find_char, find_dots, first_char_spec, first_dots_spec};

verus! {

/// The parser's state: the clusters emitted so far, and the members of the
/// cluster in progress.
pub type ReadState = (Seq<Seq<Seq<char>>>, Seq<Seq<char>>);

/// The tag `>Cluster` that opens a cluster block.
pub open spec fn cluster_tag() -> Seq<char> {
    seq!['>', 'C', 'l', 'u', 's', 't', 'e', 'r']
}

/// Whether a line opens a new cluster.
pub open spec fn is_header_line(l: Seq<char>) -> bool {
    l.len() >= 8 && l.subrange(0, 8) == cluster_tag()
}

/// The identifier that a member line names: the text after the first `>`, up
/// to the first `...` after it, trimmed of whitespace and trailing commas.
/// A line without `>` names none.
pub open spec fn member_id_spec(l: Seq<char>) -> Option<Seq<char>> {
    let p = first_char_spec(l, '>');
    if p < 0 {
        None
    } else {
        let rest = l.subrange(p + 1, l.len() as int);
        let q = first_dots_spec(rest);
        let field = if q < 0 {
            rest
        } else {
            rest.subrange(0, q)
        };
        Some(clean_spec(field))
    }
}

/// The effect of one line on the parser's state.
pub open spec fn step_spec(st: ReadState, l: Seq<char>) -> ReadState {
    if l.len() == 0 {
        st
    } else if is_header_line(l) {
        if st.1.len() > 0 {
            (st.0.push(st.1), Seq::empty())
        } else {
            st
        }
    } else {
        match member_id_spec(l) {
            Some(id) => (st.0, st.1.push(id)),
            None => st,
        }
    }
}

/// The state reached from `st` after the lines `ls`, in order.
pub open spec fn run_spec(st: ReadState, ls: Seq<Seq<char>>) -> ReadState
    decreases ls.len(),
{
    if ls.len() == 0 {
        st
    } else {
        step_spec(run_spec(st, ls.drop_last()), ls.last())
    }
}

/// The state before any line.
pub open spec fn initial_state() -> ReadState {
    (Seq::empty(), Seq::empty())
}

/// The clusters of a state once the input has ended.
pub open spec fn close_spec(st: ReadState) -> Seq<Seq<Seq<char>>> {
    if st.1.len() > 0 {
        st.0.push(st.1)
    } else {
        st.0
    }
}

/// The clusters that a report made of the lines `ls` holds.
pub open spec fn parse_spec(ls: Seq<Seq<char>>) -> Seq<Seq<Seq<char>>> {
    close_spec(run_spec(initial_state(), ls))
}

/// Running over two pieces of input in turn is running over both at once.
pub proof fn lemma_run_append(st: ReadState, a: Seq<Seq<char>>, b: Seq<Seq<char>>)
    ensures
        run_spec(st, a + b) == run_spec(run_spec(st, a), b),
    decreases b.len(),
{
    if b.len() == 0 {
        assert(a + b =~= a);
    } else {
        assert((a + b).drop_last() =~= a + b.drop_last());
        assert((a + b).last() == b.last());
        lemma_run_append(st, a, b.drop_last());
    }
}

/// An empty report holds no cluster.
pub proof fn lemma_parse_empty()
    ensures
        parse_spec(Seq::empty()) == Seq::<Seq<Seq<char>>>::empty(),
{
}

/// A header line followed by another header line, or by the end of the
/// input, adds no cluster.
pub proof fn lemma_header_without_members(a: Seq<Seq<char>>, h: Seq<char>, b: Seq<Seq<char>>)
    requires
        is_header_line(h),
        b.len() == 0 || is_header_line(b[0]),
    ensures
        parse_spec(a + seq![h] + b) == parse_spec(a + b),
{
    let init = initial_state();
    let st = run_spec(init, a);
    lemma_one_line(st, h);
    lemma_run_append(init, a, seq![h]);
    let st1 = run_spec(init, a + seq![h]);
    lemma_run_append(init, a + seq![h], b);
    lemma_run_append(init, a, b);
    if b.len() == 0 {
        assert(a + seq![h] + b =~= a + seq![h]);
        assert(a + b =~= a);
        if st.1.len() > 0 {
            assert(close_spec(st1) == st.0.push(st.1));
        }
    } else {
        let rest = b.drop_first();
        assert(b =~= seq![b[0]] + rest);
        lemma_run_append(st1, seq![b[0]], rest);
        lemma_run_append(st, seq![b[0]], rest);
        lemma_one_line(st1, b[0]);
        lemma_one_line(st, b[0]);
        assert(b[0].len() >= 8);
    }
}

proof fn lemma_one_line(st: ReadState, l: Seq<char>)
    ensures
        run_spec(st, seq![l]) == step_spec(st, l),
{
    assert(seq![l].drop_last() =~= Seq::<Seq<char>>::empty());
    assert(run_spec(st, Seq::<Seq<char>>::empty()) == st);
    assert(seq![l].last() == l);
}

/// The characters of `s`, one by one.
pub(crate) fn chars_of(s: &str) -> (r: Vec<char>)
    ensures
        r@ == s@,
{
    broadcast use vstd::string::group_string_axioms;
    let mut r: Vec<char> = Vec::new();
    for c in it: s.chars()
        invariant
            it.seq() == s@,
            r@ == it.seq().subrange(0, it.index()),
    {
        r.push(c);
        assert(r@ =~= it.seq().subrange(0, it.index() + 1));
    }
    assert(r@ =~= s@);
    r
}

/// Whether the line `l` opens a new cluster.
fn starts_cluster(l: &Vec<char>) -> (r: bool)
    ensures
        r == is_header_line(l@),
{
    if l.len() < 8 {
        return false;
    }
    let r = l[0] == '>' && l[1] == 'C' && l[2] == 'l' && l[3] == 'u' && l[4] == 's'
        && l[5] == 't' && l[6] == 'e' && l[7] == 'r';
    assert(r == (l@.subrange(0, 8) =~= cluster_tag()));
    r
}

/// The identifier named by a member line, if it has a `>`.
pub fn member_id(line: &str) -> (r: Option<String>)
    ensures
        match r {
            Some(id) => member_id_spec(line@) == Some(id@),
            None => member_id_spec(line@) is None,
        },
{
    let l = chars_of(line);
    match find_char(&l, '>') {
        None => None,
        Some(p) => {
            let n = l.len();
            let ghost rest = l@.subrange(p + 1, n as int);
            let end = match find_dots(&l, p + 1, n) {
                Some(q) => {
                    assert(rest.subrange(0, q as int) =~= l@.subrange(p + 1, p + 1 + q));
                    p + 1 + q
                },
                None => n,
            };
            let (a, b) = clean_bounds(&l, p + 1, end);
            let id = String::from_str(line.substring_char(a, b));
            Some(id)
        },
    }
}

/// A parser fed one line at a time.
pub struct ClstrReader {
    clusters: Vec<Vec<String>>,
    current: Vec<String>,
}

impl View for ClstrReader {
    type V = ReadState;

    closed spec fn view(&self) -> ReadState {
        (self.clusters.deep_view(), self.current.deep_view())
    }
}

impl ClstrReader {
    /// A parser that has seen no line yet.
    pub fn new() -> (r: Self)
        ensures
            r@ == initial_state(),
    {
        let r = ClstrReader { clusters: Vec::new(), current: Vec::new() };
        assert(r@.0 =~= Seq::<Seq<Seq<char>>>::empty());
        assert(r@.1 =~= Seq::<Seq<char>>::empty());
        r
    }

    /// Takes in one line of the report (without its line terminator).
    pub fn feed_line(&mut self, line: &str)
        ensures
            final(self)@ == step_spec(old(self)@, line@),
    {
        let l = chars_of(line);
        if l.len() == 0 {
            return;
        }
        if starts_cluster(&l) {
            if self.current.len() > 0 {
                let mut cur: Vec<String> = Vec::new();
                std::mem::swap(&mut cur, &mut self.current);
                let ghost before = self.clusters.deep_view();
                self.clusters.push(cur);
                assert(self.clusters.deep_view() =~= before.push(old(self)@.1));
                assert(self.current.deep_view() =~= Seq::<Seq<char>>::empty());
            }
            return;
        }
        match member_id(line) {
            Some(id) => {
                let ghost before = self.current.deep_view();
                self.current.push(id);
                assert(self.current.deep_view() =~= before.push(member_id_spec(line@)->0));
            },
            None => {},
        }
    }

    /// Ends the input and hands out the clusters, in the order they came.
    pub fn finish(self) -> (r: Vec<Vec<String>>)
        ensures
            r.deep_view() == close_spec(self@),
    {
        let mut clusters = self.clusters;
        let current = self.current;
        if current.len() > 0 {
            let ghost before = clusters.deep_view();
            clusters.push(current);
            assert(clusters.deep_view() =~= before.push(self@.1));
        }
        clusters
    }
}

/// Parses a whole report, given as its lines (without line terminators).
pub fn parse_clusters_from_lines(lines: &Vec<String>) -> (r: Vec<Vec<String>>)
    ensures
        r.deep_view() == parse_spec(lines.deep_view()),
{
    let mut rd = ClstrReader::new();
    let mut i: usize = 0;
    while i < lines.len()
        invariant
            i <= lines@.len(),
            rd@ == run_spec(initial_state(), lines.deep_view().subrange(0, i as int)),
        decreases lines@.len() - i,
    {
        let ghost prev = lines.deep_view().subrange(0, i as int);
        rd.feed_line(lines[i].as_str());
        i += 1;
        proof {
            let cur = lines.deep_view().subrange(0, i as int);
            assert(cur.drop_last() =~= prev);
        }
    }
    assert(lines.deep_view().subrange(0, i as int) =~= lines.deep_view());
    rd.finish()
}

} // verus!

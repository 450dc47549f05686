//! The record of a run: a forest of records, each with the records written
//! under it. A log is dumped depth first, one line per record, indented by
//! its depth; a record with nothing under it that says what the record
//! dumped just before it said is left out.
use vstd::prelude::*;
use vstd::string::*;

use crate::execution::report::{decimal, decimal_string};
use crate::json::str_eq;

verus! {

/// A record: when it was written, under which record, the records written
/// under it, the record it follows, and what it says.
#[derive(Debug)]
pub struct Record {
    /// Nanoseconds since the run started.
    pub at: u128,
    pub parent: Option<usize>,
    pub children: Vec<usize>,
    /// The record written just before it under the same record; the first
    /// record under a root follows the root.
    pub previous: Option<usize>,
    pub kind: String,
}

/// The mathematical content of a record.
pub struct RecordView {
    pub at: u128,
    pub parent: Option<usize>,
    pub children: Seq<usize>,
    pub previous: Option<usize>,
    pub kind: Seq<char>,
}

/// The record that a record written under `parent` in `rs` follows: the
/// last one under `parent`, or `parent` itself when it is a root with
/// nothing under it yet.
pub open spec fn previous_under(rs: Seq<RecordView>, parent: usize) -> Option<usize> {
    if rs[parent as int].children.len() > 0 {
        Some(rs[parent as int].children.last())
    } else if rs[parent as int].parent is None {
        Some(parent)
    } else {
        None
    }
}

impl View for Record {
    type V = RecordView;

    open spec fn view(&self) -> RecordView {
        RecordView {
            at: self.at,
            parent: self.parent,
            children: self.children@,
            previous: self.previous,
            kind: self.kind@,
        }
    }
}

/// A record of a log, by its index.
#[derive(Debug, Clone, Copy, PartialEq, Eq, Structural)]
pub struct KeyRecord(pub usize);

/// The records of a run: each record is written under another one, or is
/// the root of a tree of its own.
#[derive(Debug)]
pub struct RecordLog {
    roots: Vec<usize>,
    records: Vec<Record>,
}

/// `n` spaces.
pub open spec fn spaces(n: nat) -> Seq<char>
    decreases n,
{
    if n == 0 {
        Seq::empty()
    } else {
        spaces((n - 1) as nat).push(' ')
    }
}

/// The lines of the record `k` of `rs` and of those under it, at `depth`,
/// when the record dumped last said `last`; with what the record dumped
/// last says after them. A record written before the one it is under (which
/// a log never holds) is left out.
pub open spec fn node_text(rs: Seq<RecordView>, k: int, depth: nat, last: Option<Seq<char>>) -> (Seq<char>, Option<Seq<char>>)
    decreases rs.len() - k, 1int, 0int,
{
    if k < 0 || k >= rs.len() {
        (Seq::empty(), last)
    } else if last == Some(rs[k].kind) && rs[k].children.len() == 0 {
        (Seq::empty(), last)
    } else {
        let line = spaces(depth) + rs[k].kind + seq!['\n'];
        let (rest, l) = children_text(rs, k, 0, depth + 1, Some(rs[k].kind));
        (line + rest, l)
    }
}

/// The lines of the records under `k` from its `i`-th child on.
pub open spec fn children_text(rs: Seq<RecordView>, k: int, i: int, depth: nat, last: Option<Seq<char>>) -> (
    Seq<char>,
    Option<Seq<char>>,
)
    decreases rs.len() - k, 0int, rs[k].children.len() - i,
{
    if k < 0 || k >= rs.len() || i < 0 || i >= rs[k].children.len() {
        (Seq::empty(), last)
    } else {
        let c = rs[k].children[i] as int;
        if c <= k || c >= rs.len() {
            children_text(rs, k, i + 1, depth, last)
        } else {
            let (a, l1) = node_text(rs, c, depth, last);
            let (b, l2) = children_text(rs, k, i + 1, depth, l1);
            (a + b, l2)
        }
    }
}

/// The key of the record `k`, as it is displayed: `KeyRecord(`, its
/// number (the records are numbered from 1, in the order in which they were
/// written), then `v1)`.
pub open spec fn key_text(k: nat) -> Seq<char> {
    "KeyRecord("@ + decimal(k + 1) + "v1)"@
}

/// The dump of the trees of `roots` from the `i`-th on: each headed by
/// `ROOT: ` and the key of its root.
pub open spec fn roots_text(rs: Seq<RecordView>, roots: Seq<usize>, i: int, last: Option<Seq<char>>) -> Seq<char>
    decreases roots.len() - i,
{
    if i < 0 || i >= roots.len() {
        Seq::empty()
    } else {
        let (a, l) = node_text(rs, roots[i] as int, 0, last);
        seq!['R', 'O', 'O', 'T', ':', ' '] + key_text(roots[i] as nat) + seq!['\n'] + a + roots_text(
            rs,
            roots,
            i + 1,
            l,
        )
    }
}

/// What the record `j` of `rs` says, if any.
pub open spec fn kind_of(rs: Seq<RecordView>, j: Option<usize>) -> Option<Seq<char>> {
    match j {
        Some(j) => Some(rs[j as int].kind),
        None => None,
    }
}

impl RecordLog {
    /// The records, by index.
    pub closed spec fn records(&self) -> Seq<RecordView> {
        self.records@.map_values(|r: Record| r@)
    }

    /// The roots of the trees, in the order in which they were started.
    pub closed spec fn roots(&self) -> Seq<usize> {
        self.roots@
    }

    /// Each record is written after the record it is under, which lists it
    /// among the records under it; each root is a record under none.
    pub closed spec fn wf(&self) -> bool {
        let rs = self.records();
        &&& forall|k: int, i: int|
            0 <= k < rs.len() && 0 <= i < rs[k].children.len() ==> k < #[trigger] rs[k].children[i] < rs.len()
                && rs[rs[k].children[i] as int].parent == Some(k as usize)
        &&& forall|k: int| 0 <= k < rs.len() && (#[trigger] rs[k]).parent is Some ==> rs[k].parent->0 < k
        &&& forall|i: int| 0 <= i < self.roots@.len() ==> (#[trigger] self.roots@[i]) < rs.len() && rs[self.roots@[i] as int].parent is None
    }

    /// An empty log.
    pub fn new() -> (r: Self)
        ensures
            r.wf(),
            r.records() == Seq::<RecordView>::empty(),
            r.roots() == Seq::<usize>::empty(),
    {
        let r = RecordLog { roots: Vec::new(), records: Vec::new() };
        assert(r.records() =~= Seq::<RecordView>::empty());
        r
    }

    /// Starts a tree with a root record written at `at`, which says `ROOT`;
    /// returns it.
    pub fn recorder(&mut self, at: u128) -> (k: KeyRecord)
        requires
            old(self).wf(),
            old(self).records().len() < usize::MAX,
        ensures
            final(self).wf(),
            k.0 == old(self).records().len(),
            final(self).records() == old(self).records().push(
                RecordView { at, parent: None, children: Seq::empty(), previous: None, kind: "ROOT"@ },
            ),
            final(self).roots() == old(self).roots().push(k.0),
    {
        let ghost rs0 = self.records();
        let k = self.records.len();
        self.records.push(
            Record { at, parent: None, children: Vec::new(), previous: None, kind: String::from_str("ROOT") },
        );
        self.roots.push(k);
        proof {
            assert(self.records() =~= rs0.push(
                RecordView { at, parent: None, children: Seq::empty(), previous: None, kind: "ROOT"@ },
            ));
        }
        KeyRecord(k)
    }

    /// Writes a record that says `kind` at `at` under `parent`, following
    /// the record written last under `parent` (or `parent` itself, when it is
    /// a root with nothing under it yet); returns it.
    pub fn write(&mut self, parent: KeyRecord, at: u128, kind: String) -> (k: KeyRecord)
        requires
            old(self).wf(),
            parent.0 < old(self).records().len(),
            old(self).records().len() < usize::MAX,
        ensures
            final(self).wf(),
            k.0 == old(self).records().len(),
            final(self).records() == old(self).records().update(
                parent.0 as int,
                RecordView {
                    children: old(self).records()[parent.0 as int].children.push(k.0),
                    ..old(self).records()[parent.0 as int]
                },
            ).push(
                RecordView {
                    at,
                    parent: Some(parent.0),
                    children: Seq::empty(),
                    previous: previous_under(old(self).records(), parent.0),
                    kind: kind@,
                },
            ),
            final(self).roots() == old(self).roots(),
    {
        let ghost rs0 = self.records();
        let k = self.records.len();
        let p_ref: &Record = &self.records[parent.0];
        assert(p_ref@ == rs0[parent.0 as int]);
        let previous = if p_ref.children.len() > 0 {
            Some(p_ref.children[p_ref.children.len() - 1])
        } else if p_ref.parent.is_none() {
            Some(parent.0)
        } else {
            None
        };
        self.records.push(Record { at, parent: Some(parent.0), children: Vec::new(), previous, kind });
        let mut p = self.records.remove(parent.0);
        p.children.push(k);
        self.records.insert(parent.0, p);
        proof {
            let pv = rs0[parent.0 as int];
            let expected = rs0.update(parent.0 as int, RecordView { children: pv.children.push(k), ..pv }).push(
                RecordView {
                    at,
                    parent: Some(parent.0),
                    children: Seq::empty(),
                    previous: previous_under(rs0, parent.0),
                    kind: kind@,
                },
            );
            assert(self.records() =~= expected);
        }
        KeyRecord(k)
    }

    /// The record `k`.
    pub fn record(&self, k: KeyRecord) -> (r: &Record)
        requires
            k.0 < self.records().len(),
        ensures
            r@ == self.records()[k.0 as int],
    {
        &self.records[k.0]
    }

    /// The lines of the record `k` and of those under it, at `depth`,
    /// appended to `out`; `last` is the record dumped last, if any. Returns
    /// the record dumped last after them.
    fn dump_node(&self, k: usize, depth: usize, last: Option<usize>, out: &mut String) -> (l: Option<usize>)
        requires
            self.wf(),
            k < self.records().len(),
            depth <= k,
            last matches Some(j) ==> j < self.records().len(),
        ensures
            final(out)@ == old(out)@ + node_text(self.records(), k as int, depth as nat, kind_of(self.records(), last)).0,
            kind_of(self.records(), l) == node_text(self.records(), k as int, depth as nat, kind_of(self.records(), last)).1,
            l matches Some(j) ==> j < self.records().len(),
        decreases self.records().len() - k, 1int, 0int,
    {
        let ghost rs = self.records();
        let r: &Record = &self.records[k];
        assert(r@ == rs[k as int]);
        let same = match last {
            Some(j) => str_eq(self.records[j].kind.as_str(), r.kind.as_str()),
            None => false,
        };
        if same && r.children.len() == 0 {
            return last;
        }
        proof {
            reveal_strlit("\n");
            reveal_strlit(" ");
        }
        let mut line = String::new();
        let mut d: usize = 0;
        while d < depth
            invariant
                d <= depth,
                line@ == spaces(d as nat),
            decreases depth - d,
        {
            proof {
                reveal_strlit(" ");
            }
            line.append(" ");
            assert(line@ =~= spaces((d + 1) as nat));
            d = d + 1;
        }
        line.append(r.kind.as_str());
        line.append("\n");
        out.append(line.as_str());
        let n = self.records.len();
        assert(depth < n);
        self.dump_children(k, 0, depth + 1, Some(k), out)
    }

    /// The lines of the records under `k` from its `i`-th child on, at
    /// `depth`, appended to `out`.
    fn dump_children(&self, k: usize, i: usize, depth: usize, last: Option<usize>, out: &mut String) -> (l: Option<usize>)
        requires
            self.wf(),
            k < self.records().len(),
            i <= self.records()[k as int].children.len(),
            depth <= k + 1,
            last matches Some(j) ==> j < self.records().len(),
        ensures
            final(out)@ == old(out)@ + children_text(self.records(), k as int, i as int, depth as nat, kind_of(self.records(), last)).0,
            kind_of(self.records(), l) == children_text(self.records(), k as int, i as int, depth as nat, kind_of(self.records(), last)).1,
            l matches Some(j) ==> j < self.records().len(),
        decreases self.records().len() - k, 0int, self.records()[k as int].children.len() - i,
    {
        let ghost rs = self.records();
        let ghost out0 = out@;
        assert(self.records[k as int]@ == rs[k as int]);
        if i >= self.records[k].children.len() {
            return last;
        }
        let c = self.records[k].children[i];
        assert(c == rs[k as int].children[i as int]);
        let l1 = self.dump_node(c, depth, last, out);
        let ghost mid = out@;
        let l2 = self.dump_children(k, i + 1, depth, l1, out);
        proof {
            assert(out@ =~= out0 + (node_text(rs, c as int, depth as nat, kind_of(rs, last)).0 + children_text(
                rs,
                k as int,
                i + 1,
                depth as nat,
                kind_of(rs, l1),
            ).0));
        }
        l2
    }

    /// The log, dumped: each tree headed by `ROOT: ` and the key of its
    /// root, in the order in which the trees were started.
    pub fn dump(&self) -> (r: String)
        requires
            self.wf(),
        ensures
            r@ == roots_text(self.records(), self.roots(), 0, None),
    {
        proof {
            reveal_strlit("ROOT: ");
            reveal_strlit("\n");
        }
        let mut out = String::new();
        let mut last: Option<usize> = None;
        let mut i: usize = 0;
        while i < self.roots.len()
            invariant
                self.wf(),
                i <= self.roots@.len(),
                last matches Some(j) ==> j < self.records().len(),
                out@ + roots_text(self.records(), self.roots(), i as int, kind_of(self.records(), last))
                    == roots_text(self.records(), self.roots(), 0, None),
            decreases self.roots@.len() - i,
        {
            proof {
                reveal_strlit("ROOT: ");
                reveal_strlit("\n");
                reveal_strlit("KeyRecord(");
                reveal_strlit("v1)");
            }
            let ghost before = out@;
            let ghost lv = kind_of(self.records(), last);
            let root = self.roots[i];
            assert(root == self.roots()[i as int]);
            let nrec = self.records.len();
            assert(root < nrec);
            out.append("ROOT: ");
            out.append("KeyRecord(");
            out.append(decimal_string(root + 1).as_str());
            out.append("v1)");
            out.append("\n");
            let l = self.dump_node(root, 0, last, &mut out);
            proof {
                let (a, l2) = node_text(self.records(), root as int, 0, lv);
                assert(out@ =~= before + (seq!['R', 'O', 'O', 'T', ':', ' '] + key_text(root as nat) + seq!['\n'] + a));
                assert(roots_text(self.records(), self.roots(), i as int, lv) == seq!['R', 'O', 'O', 'T', ':', ' ']
                    + key_text(root as nat) + seq!['\n'] + a + roots_text(self.records(), self.roots(), i + 1, l2));
            }
            last = l;
            i = i + 1;
        }
        proof {
            assert(out@ + Seq::<char>::empty() =~= out@);
        }
        out
    }
}

} // verus!

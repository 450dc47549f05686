//! The outcome of a run: which required events were reached and which not.
use vstd::prelude::*;
use vstd::string::*;

use crate::names::EventName;
use crate::scenario::RequiredToBe;

verus! {

/// The outcome of a run: each required event with what it was required to
/// be, split by whether it was reached.
#[derive(Debug)]
pub struct Report {
    pub reached: Vec<(EventName, RequiredToBe)>,
    pub unreached: Vec<(EventName, RequiredToBe)>,
}

/// The number of entries of `entries` required to be `want`.
pub open spec fn count_required(entries: Seq<(EventName, RequiredToBe)>, want: RequiredToBe) -> nat
    decreases entries.len(),
{
    if entries.len() == 0 {
        0
    } else {
        count_required(entries.drop_last(), want) + if entries.last().1 == want {
            1nat
        } else {
            0nat
        }
    }
}

/// The decimal digit `d`.
pub open spec fn digit(d: nat) -> char {
    if d == 0 {
        '0'
    } else if d == 1 {
        '1'
    } else if d == 2 {
        '2'
    } else if d == 3 {
        '3'
    } else if d == 4 {
        '4'
    } else if d == 5 {
        '5'
    } else if d == 6 {
        '6'
    } else if d == 7 {
        '7'
    } else if d == 8 {
        '8'
    } else {
        '9'
    }
}

/// `n` written in decimal.
pub open spec fn decimal(n: nat) -> Seq<char>
    decreases n,
{
    if n < 10 {
        seq![digit(n)]
    } else {
        decimal(n / 10).push(digit(n % 10))
    }
}

/// The counts, as the report's message shows them.
pub open spec fn summary_text(r_r: nat, r_u: nat, u_u: nat, u_r: nat) -> Seq<char> {
    "\nReached:\n    Ok:  "@ + decimal(r_r) + "\n    Err: "@ + decimal(r_u) + "\nUnreached:\n    Ok:  "@
        + decimal(u_u) + "\n    Err: "@ + decimal(u_r) + "\n"@
}

/// One line, headed by `head`, for each entry of `entries` required to be
/// `want`.
pub open spec fn flagged_lines(
    entries: Seq<(EventName, RequiredToBe)>,
    want: RequiredToBe,
    head: Seq<char>,
) -> Seq<char>
    decreases entries.len(),
{
    if entries.len() == 0 {
        Seq::empty()
    } else {
        flagged_lines(entries.drop_last(), want, head) + if entries.last().1 == want {
            head + "E:"@ + entries.last().0@ + "\n"@
        } else {
            Seq::empty()
        }
    }
}

/// The text of the report.
pub open spec fn report_text(
    reached: Seq<(EventName, RequiredToBe)>,
    unreached: Seq<(EventName, RequiredToBe)>,
) -> Seq<char> {
    summary_text(
        count_required(reached, RequiredToBe::Reached),
        count_required(reached, RequiredToBe::Unreached),
        count_required(unreached, RequiredToBe::Unreached),
        count_required(unreached, RequiredToBe::Reached),
    ) + flagged_lines(unreached, RequiredToBe::Reached, "! unreached "@) + flagged_lines(
        reached,
        RequiredToBe::Unreached,
        "! reached   "@,
    )
}

/// The digit `d` as a string.
fn digit_str(d: usize) -> (r: &'static str)
    requires
        d < 10,
    ensures
        r@ == seq![digit(d as nat)],
{
    proof {
        reveal_strlit("0");
        reveal_strlit("1");
        reveal_strlit("2");
        reveal_strlit("3");
        reveal_strlit("4");
        reveal_strlit("5");
        reveal_strlit("6");
        reveal_strlit("7");
        reveal_strlit("8");
        reveal_strlit("9");
    }
    if d == 0 {
        "0"
    } else if d == 1 {
        "1"
    } else if d == 2 {
        "2"
    } else if d == 3 {
        "3"
    } else if d == 4 {
        "4"
    } else if d == 5 {
        "5"
    } else if d == 6 {
        "6"
    } else if d == 7 {
        "7"
    } else if d == 8 {
        "8"
    } else {
        "9"
    }
}

/// `n` written in decimal.
pub fn decimal_string(n: usize) -> (r: String)
    ensures
        r@ == decimal(n as nat),
    decreases n,
{
    if n < 10 {
        String::from_str(digit_str(n))
    } else {
        let head = decimal_string(n / 10);
        let r = head.concat(digit_str(n % 10));
        assert(r@ =~= decimal(n as nat));
        r
    }
}

/// The number of entries of `entries` required to be `want`.
fn count_of(entries: &Vec<(EventName, RequiredToBe)>, want: RequiredToBe) -> (r: usize)
    ensures
        r == count_required(entries@, want),
{
    let mut n: usize = 0;
    let mut i: usize = 0;
    while i < entries.len()
        invariant
            i <= entries@.len(),
            n == count_required(entries@.take(i as int), want),
            n <= i,
        decreases entries@.len() - i,
    {
        assert(entries@.take(i + 1).drop_last() =~= entries@.take(i as int));
        if entries[i].1 == want {
            n = n + 1;
        }
        i = i + 1;
    }
    assert(entries@.take(i as int) =~= entries@);
    n
}

/// The lines, headed by `head`, of the entries of `entries` required to be
/// `want`, appended to `out`.
fn push_flagged(
    out: String,
    entries: &Vec<(EventName, RequiredToBe)>,
    want: RequiredToBe,
    head: &str,
) -> (r: String)
    ensures
        r@ == out@ + flagged_lines(entries@, want, head@),
{
    proof {
        reveal_strlit("E:");
        reveal_strlit("\n");
    }
    let mut out = out;
    let ghost out0 = out@;
    let mut i: usize = 0;
    assert(flagged_lines(entries@.take(0), want, head@) =~= Seq::<char>::empty());
    while i < entries.len()
        invariant
            i <= entries@.len(),
            out@ == out0 + flagged_lines(entries@.take(i as int), want, head@),
        decreases entries@.len() - i,
    {
        assert(entries@.take(i + 1).drop_last() =~= entries@.take(i as int));
        if entries[i].1 == want {
            let line = String::from_str(head).concat("E:").concat(entries[i].0.as_str()).concat(
                "\n",
            );
            out = out.concat(line.as_str());
        }
        i = i + 1;
        assert(out@ =~= out0 + flagged_lines(entries@.take(i as int), want, head@));
    }
    assert(entries@.take(i as int) =~= entries@);
    out
}

impl Report {
    /// Whether every required event was reached and every event required to
    /// be unreached was not.
    pub fn is_ok(&self) -> (r: bool)
        ensures
            r == (count_required(self.reached@, RequiredToBe::Unreached) == 0 && count_required(
                self.unreached@,
                RequiredToBe::Reached,
            ) == 0),
    {
        count_of(&self.reached, RequiredToBe::Unreached) == 0 && count_of(
            &self.unreached,
            RequiredToBe::Reached,
        ) == 0
    }

    /// A text that counts the outcomes, then names each event that did not
    /// turn out as required.
    pub fn message(&self) -> (r: String)
        ensures
            r@ == report_text(self.reached@, self.unreached@),
    {
        let r_r = count_of(&self.reached, RequiredToBe::Reached);
        let r_u = count_of(&self.reached, RequiredToBe::Unreached);
        let u_r = count_of(&self.unreached, RequiredToBe::Reached);
        let u_u = count_of(&self.unreached, RequiredToBe::Unreached);
        let out = String::from_str("\nReached:\n    Ok:  ").concat(decimal_string(r_r).as_str()).concat(
            "\n    Err: ",
        ).concat(decimal_string(r_u).as_str()).concat("\nUnreached:\n    Ok:  ").concat(
            decimal_string(u_u).as_str(),
        ).concat("\n    Err: ").concat(decimal_string(u_r).as_str()).concat("\n");
        assert(out@ =~= summary_text(r_r as nat, r_u as nat, u_u as nat, u_r as nat));
        let out = push_flagged(out, &self.unreached, RequiredToBe::Reached, "! unreached ");
        let out = push_flagged(out, &self.reached, RequiredToBe::Unreached, "! reached   ");
        assert(out@ =~= report_text(self.reached@, self.unreached@));
        out
    }
}

/// No entry required to be `want` gives no line.
proof fn lemma_no_flagged_lines(entries: Seq<(EventName, RequiredToBe)>, want: RequiredToBe, head: Seq<char>)
    requires
        count_required(entries, want) == 0,
    ensures
        flagged_lines(entries, want, head) == Seq::<char>::empty(),
    decreases entries.len(),
{
    if entries.len() > 0 {
        lemma_no_flagged_lines(entries.drop_last(), want, head);
        assert(flagged_lines(entries, want, head) =~= Seq::<char>::empty());
    }
}

/// A report that is ok names no event: its text is the counts alone, with
/// nothing that turned out otherwise than required.
pub proof fn law_ok_report_names_no_event(r: Report)
    requires
        count_required(r.reached@, RequiredToBe::Unreached) == 0,
        count_required(r.unreached@, RequiredToBe::Reached) == 0,
    ensures
        report_text(r.reached@, r.unreached@) == summary_text(
            count_required(r.reached@, RequiredToBe::Reached),
            0,
            count_required(r.unreached@, RequiredToBe::Unreached),
            0,
        ),
{
    lemma_no_flagged_lines(r.unreached@, RequiredToBe::Reached, "! unreached "@);
    lemma_no_flagged_lines(r.reached@, RequiredToBe::Unreached, "! reached   "@);
    let t = summary_text(count_required(r.reached@, RequiredToBe::Reached), 0, count_required(r.unreached@, RequiredToBe::Unreached), 0);
    assert(t + Seq::<char>::empty() + Seq::<char>::empty() =~= t);
}

/// Each entry is required to be reached or unreached.
proof fn lemma_counts_sum(entries: Seq<(EventName, RequiredToBe)>)
    ensures
        count_required(entries, RequiredToBe::Reached) + count_required(entries, RequiredToBe::Unreached)
            == entries.len(),
    decreases entries.len(),
{
    if entries.len() > 0 {
        lemma_counts_sum(entries.drop_last());
    }
}

/// A number takes one digit or more.
proof fn lemma_decimal_nonempty(n: nat)
    ensures
        decimal(n).len() >= 1,
    decreases n,
{
    if n >= 10 {
        lemma_decimal_nonempty(n / 10);
    }
}

/// The next number takes at most one more digit.
proof fn lemma_decimal_next(n: nat)
    ensures
        decimal(n + 1).len() <= decimal(n).len() + 1,
    decreases n,
{
    lemma_decimal_nonempty(n);
    if n + 1 >= 10 && n >= 10 {
        let q = n / 10;
        assert((n + 1) / 10 == q || (n + 1) / 10 == q + 1) by (nonlinear_arith)
            requires
                q == n / 10,
                n >= 0,
        ;
        if (n + 1) / 10 == q + 1 {
            assert(q < n) by (nonlinear_arith)
                requires
                    n >= 10,
                    q == n / 10,
            ;
            lemma_decimal_next(q);
        }
    } else if n + 1 >= 10 {
        assert(n == 9);
        assert(decimal(10).len() == decimal(1).len() + 1);
    }
}

/// Adding `y` to a number adds at most `y` digits.
proof fn lemma_decimal_add(x: nat, y: nat)
    ensures
        decimal(x + y).len() <= decimal(x).len() + y,
    decreases y,
{
    if y > 0 {
        lemma_decimal_add(x, (y - 1) as nat);
        lemma_decimal_next((x + y - 1) as nat);
    }
}

/// Each flagged line takes at least the length of its head and three more
/// characters.
proof fn lemma_flagged_len(entries: Seq<(EventName, RequiredToBe)>, want: RequiredToBe, head: Seq<char>)
    requires
        head.len() == 12,
    ensures
        flagged_lines(entries, want, head).len() >= 15 * count_required(entries, want),
    decreases entries.len(),
{
    reveal_strlit("E:");
    reveal_strlit("\n");
    if entries.len() > 0 {
        lemma_flagged_len(entries.drop_last(), want, head);
    }
}

/// A report is ok exactly when its text is the bare counts: every reached
/// event counted as reached as required, every unreached one as unreached
/// as required, and no wrong outcome, with no event named.
pub proof fn law_report_ok_iff_bare_counts(r: Report)
    ensures
        (count_required(r.reached@, RequiredToBe::Unreached) == 0 && count_required(r.unreached@, RequiredToBe::Reached)
            == 0) <==> report_text(r.reached@, r.unreached@) == summary_text(
            r.reached@.len(),
            0,
            r.unreached@.len(),
            0,
        ),
{
    reveal_strlit("! unreached ");
    reveal_strlit("! reached   ");
    lemma_counts_sum(r.reached@);
    lemma_counts_sum(r.unreached@);
    let r_r = count_required(r.reached@, RequiredToBe::Reached);
    let r_u = count_required(r.reached@, RequiredToBe::Unreached);
    let u_u = count_required(r.unreached@, RequiredToBe::Unreached);
    let u_r = count_required(r.unreached@, RequiredToBe::Reached);
    if r_u == 0 && u_r == 0 {
        law_ok_report_names_no_event(r);
    } else {
        let a = report_text(r.reached@, r.unreached@);
        let b = summary_text(r.reached@.len(), 0, r.unreached@.len(), 0);
        lemma_flagged_len(r.unreached@, RequiredToBe::Reached, "! unreached "@);
        lemma_flagged_len(r.reached@, RequiredToBe::Unreached, "! reached   "@);
        lemma_decimal_add(r_r, r_u);
        lemma_decimal_add(u_u, u_r);
        lemma_decimal_nonempty(r_u);
        lemma_decimal_nonempty(u_r);
        assert(decimal(0).len() == 1);
        assert(a.len() > b.len());
    }
}

} // verus!

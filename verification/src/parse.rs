use vstd::prelude::*;
use crate::calc::{
    Associativity, DigitStep, NumLit, NumLitView, Oper, OperView, opers_view, prec_of, assoc_of,
    is_operator, is_upper_letter, get_prec, get_associativity, is_oper, is_letter, postfix_depth,
    eval_action_spec, EvalAction,
};

verus! {

/// A decimal digit character `0`..`9`.
pub open spec fn is_digit_byte(c: u8) -> bool {
    48 <= c <= 57
}

/// The state of the expression reader between two characters.
#[verifier::ext_equal]
pub struct ParseState {
    /// Position of the next character.
    pub i: int,
    /// Starting value of the number being read (a variable), if any.
    pub var: Option<u8>,
    /// Digits of the number being read.
    pub steps: Seq<DigitStep>,
    /// A number is being read.
    pub num_used: bool,
    /// 0 before the decimal point; after it, the divisor of the next digit.
    pub dot_used: u32,
    /// The previous item was an operator (or nothing), so a number or `(` may follow.
    pub last_op: bool,
    /// The number being read follows a unary minus.
    pub next_negative: bool,
    /// Where the result is stored: 0..=25 for a variable, 26 for `ANS`.
    pub letter_answer: int,
    /// Operator stack.
    pub tmp: Seq<u8>,
    /// Output, in postfix order.
    pub ret: Seq<OperView>,
}

/// What one character does to the reader.
pub enum StepResult {
    Next(ParseState),
    /// The expression is invalid; the output so far is handed back.
    Fail(Seq<OperView>),
}

/// What reading a whole expression gives.
pub enum ParseOutcome {
    /// The items in reverse postfix order, and where the result goes.
    Parsed(Seq<OperView>, int),
    /// The expression is invalid; the output read so far.
    Failed(Seq<OperView>),
}

/// The reader before the first character: an operand may come, the result
/// goes to `ANS`.
pub open spec fn initial_state() -> ParseState {
    ParseState {
        i: 0,
        var: None,
        steps: Seq::empty(),
        num_used: false,
        dot_used: 0,
        last_op: true,
        next_negative: false,
        letter_answer: 26,
        tmp: Seq::empty(),
        ret: Seq::empty(),
    }
}

/// The number being read, as an output item.
pub open spec fn number_token(st: ParseState) -> OperView {
    OperView::Number(NumLitView { negative: st.next_negative, var: st.var, steps: st.steps })
}

/// A number being read ends at a character that is not part of it: it goes to
/// the output, unless it follows another number (then the expression fails).
pub open spec fn flush_number(st: ParseState) -> Option<ParseState> {
    if !st.num_used {
        Some(st)
    } else if !st.last_op {
        None
    } else {
        Some(
            ParseState {
                ret: st.ret.push(number_token(st)),
                next_negative: false,
                var: None,
                steps: Seq::empty(),
                dot_used: 0,
                num_used: false,
                last_op: false,
                ..st
            },
        )
    }
}

/// `)`: operators are popped to the output up to the matching `(`, which is
/// dropped; `None` when the stack runs out first.
pub open spec fn close_paren(tmp: Seq<u8>, ret: Seq<OperView>) -> Option<(Seq<u8>, Seq<OperView>)>
    decreases tmp.len(),
{
    if tmp.len() == 0 {
        None
    } else if tmp.last() == 40 {
        Some((tmp.drop_last(), ret))
    } else {
        close_paren(tmp.drop_last(), ret.push(OperView::Operator(tmp.last())))
    }
}

/// The first position at or after `j` that is not a space (or is `len`).
pub open spec fn skip_spaces(s: Seq<u8>, len: int, j: int) -> int
    decreases len - j,
{
    if j < len && 0 <= j < s.len() && s[j] == 32 {
        skip_spaces(s, len, j + 1)
    } else {
        j
    }
}

/// Whether the operator `t` on the stack leaves it before operator `c` goes on.
pub open spec fn pops_before(c: u8, t: u8) -> bool {
    is_operator(t) && (prec_of(c) < prec_of(t) || (prec_of(c) == prec_of(t) && assoc_of(c)
        == Associativity::Left))
}

/// With `t` taken off the stack: while more remain and `t` goes first, `t` is
/// output and the next one taken off.
pub open spec fn reduce_ops(c: u8, t: u8, tmp: Seq<u8>, ret: Seq<OperView>) -> (u8, Seq<u8>, Seq<OperView>)
    decreases tmp.len(),
{
    if tmp.len() > 0 && pops_before(c, t) {
        reduce_ops(c, tmp.last(), tmp.drop_last(), ret.push(OperView::Operator(t)))
    } else {
        (t, tmp, ret)
    }
}

/// A binary operator `c` read after an operand.
pub open spec fn push_operator(c: u8, tmp: Seq<u8>, ret: Seq<OperView>) -> (Seq<u8>, Seq<OperView>) {
    if tmp.len() == 0 {
        (tmp.push(c), ret)
    } else {
        let (t, tmp2, ret2) = reduce_ops(c, tmp.last(), tmp.drop_last(), ret);
        if is_operator(t) && prec_of(c) <= prec_of(t) {
            (tmp2.push(c), ret2.push(OperView::Operator(t)))
        } else {
            (tmp2.push(t).push(c), ret2)
        }
    }
}

/// One character `c`, after any number that it ends has been output.
pub open spec fn step_after_flush(s: Seq<u8>, len: int, f: ParseState, c: u8) -> StepResult {
    if c == 40 {
        // '('
        if !f.last_op {
            StepResult::Fail(f.ret)
        } else {
            StepResult::Next(ParseState { tmp: f.tmp.push(c), i: f.i + 1, ..f })
        }
    } else if c == 41 {
        // ')'
        if f.last_op {
            StepResult::Fail(f.ret)
        } else {
            match close_paren(f.tmp, f.ret) {
                None => StepResult::Fail(f.ret),
                Some((t, r)) => StepResult::Next(
                    ParseState { tmp: t, ret: r, last_op: false, i: f.i + 1, ..f },
                ),
            }
        }
    } else if is_upper_letter(c) {
        let ans = f.i + 2 < len && s[f.i + 1] == 78 && s[f.i + 2] == 83;  // "NS"
        let j0 = if ans {
            f.i + 3
        } else {
            f.i + 1
        };
        let j = skip_spaces(s, len, j0);
        if j < len && s[j] == 61 {
            // '='
            if !ans {
                StepResult::Next(ParseState { letter_answer: c - 65, i: j + 1, ..f })
            } else {
                StepResult::Next(ParseState { i: j, ..f })
            }
        } else {
            StepResult::Next(
                ParseState {
                    var: Some(
                        if ans {
                            26u8
                        } else {
                            (c - 65) as u8
                        },
                    ),
                    steps: Seq::empty(),
                    num_used: true,
                    i: j,
                    ..f
                },
            )
        }
    } else if is_operator(c) {
        if f.last_op {
            if c == 45 {
                if f.i + 1 < len && is_digit_byte(s[f.i + 1]) {
                    StepResult::Next(ParseState { next_negative: true, i: f.i + 1, ..f })
                } else {
                    StepResult::Fail(f.ret)
                }
            } else {
                StepResult::Fail(f.ret)
            }
        } else {
            let (t, r) = push_operator(c, f.tmp, f.ret);
            StepResult::Next(ParseState { tmp: t, ret: r, last_op: true, i: f.i + 1, ..f })
        }
    } else if c != 32 {
        StepResult::Fail(f.ret)
    } else {
        StepResult::Next(ParseState { i: f.i + 1, ..f })
    }
}

/// One character of the expression: digits and a decimal point extend the
/// number being read; anything else first ends it.
pub open spec fn step(s: Seq<u8>, len: int, st: ParseState) -> StepResult {
    let c = s[st.i];
    if is_digit_byte(c) || (st.num_used && c == 46 && st.dot_used == 0) {
        let st2 = if c == 46 {
            ParseState { dot_used: 10, ..st }
        } else if st.dot_used > 0 {
            ParseState {
                steps: st.steps.push(DigitStep { digit: (c - 48) as u8, divisor: st.dot_used }),
                dot_used: vstd::wrapping::u32_specs::wrapping_mul(st.dot_used, 10),
                ..st
            }
        } else {
            ParseState { steps: st.steps.push(DigitStep { digit: (c - 48) as u8, divisor: 0 }), ..st }
        };
        StepResult::Next(ParseState { num_used: true, i: st.i + 1, ..st2 })
    } else {
        match flush_number(st) {
            None => StepResult::Fail(st.ret),
            Some(f) => step_after_flush(s, len, f, c),
        }
    }
}

/// The operator stack is emptied into the output, top first.
pub open spec fn flush_ops(tmp: Seq<u8>) -> Seq<OperView> {
    tmp.reverse().map_values(|c: u8| OperView::Operator(c))
}

/// The end of the expression: the last number and the remaining operators go
/// to the output, which is then reversed.
pub open spec fn finish(st: ParseState) -> Seq<OperView> {
    let r1 = if st.num_used {
        st.ret.push(number_token(st))
    } else {
        st.ret
    };
    (r1 + flush_ops(st.tmp)).reverse()
}

/// The expression is complete at its end: it does not end where an operand
/// is still expected (after an operator, or with nothing read), it does not
/// end with a number right after another operand, and every `(` is closed.
pub open spec fn complete_at_end(st: ParseState) -> bool {
    st.num_used == st.last_op && opens_count(st.tmp) == 0
}

/// Reading from state `st` to the end.
pub open spec fn run(s: Seq<u8>, len: int, st: ParseState) -> ParseOutcome
    decreases len - st.i,
{
    if !(0 <= st.i < len && len <= s.len()) {
        if complete_at_end(st) {
            ParseOutcome::Parsed(finish(st), st.letter_answer)
        } else {
            ParseOutcome::Failed(st.ret)
        }
    } else {
        match step(s, len, st) {
            StepResult::Next(n) => if st.i < n.i <= len {
                run(s, len, n)
            } else {
                ParseOutcome::Failed(n.ret)
            },
            StepResult::Fail(r) => ParseOutcome::Failed(r),
        }
    }
}

/// Reading the first `len` bytes of the key buffer `s`.
pub open spec fn parse_spec(s: Seq<u8>, len: int) -> ParseOutcome {
    run(s, len, initial_state())
}

proof fn lemma_view_push(v: Seq<Oper>, x: Oper)
    ensures
        opers_view(v.push(x)) == opers_view(v).push(x@),
{
    assert(opers_view(v.push(x)) =~= opers_view(v).push(x@));
}

/// What one character did, as the reader runs.
enum StepExec {
    Continue,
    Failed,
}

/// The reader's state in executable form.
struct Parser {
    i: usize,
    var: Option<u8>,
    steps: Vec<DigitStep>,
    num_used: bool,
    dot_used: u32,
    last_op: bool,
    next_negative: bool,
    letter_answer: i32,
    tmp: Vec<u8>,
    ret: Vec<Oper>,
}

impl Parser {
    spec fn state(&self) -> ParseState {
        ParseState {
            i: self.i as int,
            var: self.var,
            steps: self.steps@,
            num_used: self.num_used,
            dot_used: self.dot_used,
            last_op: self.last_op,
            next_negative: self.next_negative,
            letter_answer: self.letter_answer as int,
            tmp: self.tmp@,
            ret: opers_view(self.ret@),
        }
    }

    fn new() -> (p: Parser)
        ensures
            p.state() == initial_state(),
    {
        let p = Parser {
            i: 0,
            var: None,
            steps: Vec::new(),
            num_used: false,
            dot_used: 0,
            last_op: true,
            next_negative: false,
            letter_answer: 26,
            tmp: Vec::new(),
            ret: Vec::new(),
        };
        assert(p.state() =~= initial_state());
        p
    }
}

/// `)`: pops operators to the output up to the matching `(`.
fn close_paren_exec(tmp: &mut Vec<u8>, ret: &mut Vec<Oper>) -> (ok: bool)
    ensures
        match close_paren(old(tmp)@, opers_view(old(ret)@)) {
            Some((t, r)) => ok && final(tmp)@ == t && opers_view(final(ret)@) == r,
            None => !ok,
        },
{
    loop
        invariant
            close_paren(tmp@, opers_view(ret@)) == close_paren(old(tmp)@, opers_view(old(ret)@)),
        decreases tmp.len(),
    {
        if tmp.len() == 0 {
            return false;
        }
        let t = tmp.pop().unwrap();
        if t == 40 {
            return true;
        }
        proof {
            lemma_view_push(ret@, Oper::Operator(t));
        }
        ret.push(Oper::Operator(t));
    }
}

proof fn lemma_close_paren_some(tmp: Seq<u8>, ret: Seq<OperView>)
    ensures
        close_paren(tmp, ret) is Some <==> opens_count(tmp) > 0,
    decreases tmp.len(),
{
    if tmp.len() > 0 {
        lemma_counts_push(tmp.drop_last(), tmp.last());
        assert(tmp.drop_last().push(tmp.last()) =~= tmp);
        lemma_counts_nonneg(tmp.drop_last());
        if tmp.last() != 40 {
            lemma_close_paren_some(tmp.drop_last(), ret.push(OperView::Operator(tmp.last())));
        }
    }
}

/// Whether the operator stack holds a `(`.
fn has_open_paren(tmp: &Vec<u8>) -> (b: bool)
    ensures
        b == (opens_count(tmp@) > 0),
{
    let mut k: usize = 0;
    while k < tmp.len()
        invariant
            k <= tmp.len(),
            opens_count(tmp@.take(k as int)) == 0,
        decreases tmp.len() - k,
    {
        proof {
            assert(tmp@.take(k as int + 1) =~= tmp@.take(k as int).push(tmp@[k as int]));
            lemma_counts_push(tmp@.take(k as int), tmp@[k as int]);
        }
        if tmp[k] == 40 {
            proof {
                lemma_opens_prefix(tmp@, k as int + 1);
            }
            return true;
        }
        k = k + 1;
    }
    assert(tmp@.take(k as int) =~= tmp@);
    false
}

/// A `(` counted in a prefix of the stack is counted in the whole stack.
proof fn lemma_opens_prefix(t: Seq<u8>, k: int)
    requires
        0 <= k <= t.len(),
    ensures
        opens_count(t.take(k)) <= opens_count(t),
    decreases t.len() - k,
{
    if k < t.len() {
        lemma_opens_prefix(t, k + 1);
        assert(t.take(k + 1) =~= t.take(k).push(t[k]));
        lemma_counts_push(t.take(k), t[k]);
    } else {
        assert(t.take(k) =~= t);
    }
}

/// Whether operator `t` on the stack leaves it before operator `c` goes on.
fn pops_before_exec(c: u8, t: u8) -> (b: bool)
    ensures
        b == pops_before(c, t),
{
    is_oper(t as char) && (get_prec(c) < get_prec(t) || (get_prec(c) == get_prec(t)
        && get_associativity(c) == Associativity::Left))
}

/// Pops the operators that go before `c` to the output; returns the last one
/// taken off the stack.
fn reduce_ops_exec(c: u8, t0: u8, tmp: &mut Vec<u8>, ret: &mut Vec<Oper>) -> (t: u8)
    ensures
        (t, final(tmp)@, opers_view(final(ret)@)) == reduce_ops(c, t0, old(tmp)@, opers_view(old(ret)@)),
{
    let mut t = t0;
    while tmp.len() > 0 && pops_before_exec(c, t)
        invariant
            reduce_ops(c, t, tmp@, opers_view(ret@)) == reduce_ops(c, t0, old(tmp)@, opers_view(old(ret)@)),
        decreases tmp.len(),
    {
        proof {
            lemma_view_push(ret@, Oper::Operator(t));
        }
        ret.push(Oper::Operator(t));
        t = tmp.pop().unwrap();
    }
    t
}

/// A binary operator `c` read after an operand.
fn push_operator_exec(c: u8, tmp: &mut Vec<u8>, ret: &mut Vec<Oper>)
    ensures
        (final(tmp)@, opers_view(final(ret)@)) == push_operator(c, old(tmp)@, opers_view(old(ret)@)),
{
    if tmp.len() == 0 {
        tmp.push(c);
    } else {
        let t0 = tmp.pop().unwrap();
        let t = reduce_ops_exec(c, t0, tmp, ret);
        if is_oper(t as char) && get_prec(c) <= get_prec(t) {
            proof {
                lemma_view_push(ret@, Oper::Operator(t));
            }
            ret.push(Oper::Operator(t));
        } else {
            tmp.push(t);
        }
        tmp.push(c);
    }
}

/// The first position at or after `j0` that is not a space (or is `len`).
fn skip_spaces_exec(s: &[u8], len: usize, j0: usize) -> (j: usize)
    requires
        len <= s.len(),
        j0 <= len,
    ensures
        j == skip_spaces(s@, len as int, j0 as int),
        j0 <= j <= len,
{
    let mut j = j0;
    while j < len && s[j] == 32
        invariant
            len <= s.len(),
            j0 <= j <= len,
            skip_spaces(s@, len as int, j as int) == skip_spaces(s@, len as int, j0 as int),
        decreases len - j,
    {
        j = j + 1;
    }
    j
}

impl Parser {
    /// One character `c` at position `i`, after any number that it ends has
    /// been output.
    fn step_after_flush(&mut self, s: &[u8], len: usize, c: u8) -> (r: StepExec)
        requires
            old(self).i < len <= s.len(),
            c == s@[old(self).i as int],
        ensures
            match step_after_flush(s@, len as int, old(self).state(), c) {
                StepResult::Next(n) => r is Continue && final(self).state() == n,
                StepResult::Fail(v) => r is Failed && opers_view(final(self).ret@) == v,
            },
            r is Continue ==> old(self).i < final(self).i <= len,
    {
        let ghost n = match step_after_flush(s@, len as int, self.state(), c) {
            StepResult::Next(n) => n,
            _ => self.state(),
        };
        if c == 40 {
            if !self.last_op {
                return StepExec::Failed;
            }
            self.tmp.push(c);
            self.i = self.i + 1;
        } else if c == 41 {
            if self.last_op {
                return StepExec::Failed;
            }
            if !has_open_paren(&self.tmp) {
                proof {
                    lemma_close_paren_some(self.tmp@, opers_view(self.ret@));
                }
                return StepExec::Failed;
            }
            proof {
                lemma_close_paren_some(self.tmp@, opers_view(self.ret@));
            }
            close_paren_exec(&mut self.tmp, &mut self.ret);
            self.last_op = false;
            self.i = self.i + 1;
        } else if is_letter(c) {
            let mut j: usize = self.i + 1;
            let mut ans = false;
            if len - self.i > 2 && s[self.i + 1] == 78 && s[self.i + 2] == 83 {
                j = self.i + 3;
                ans = true;
            }
            j = skip_spaces_exec(s, len, j);
            if j < len && s[j] == 61 {
                if !ans {
                    self.letter_answer = (c - 65) as i32;
                    j = j + 1;
                }
            } else {
                self.var = Some(
                    if ans {
                        26
                    } else {
                        c - 65
                    },
                );
                self.steps = Vec::new();
                self.num_used = true;
            }
            self.i = j;
        } else if is_oper(c as char) {
            if self.last_op {
                if c == 45 && self.i + 1 < len && s[self.i + 1] >= 48 && s[self.i + 1] <= 57 {
                    self.next_negative = true;
                } else {
                    return StepExec::Failed;
                }
            } else {
                push_operator_exec(c, &mut self.tmp, &mut self.ret);
                self.last_op = true;
            }
            self.i = self.i + 1;
        } else if c != 32 {
            return StepExec::Failed;
        } else {
            self.i = self.i + 1;
        }
        assert(self.state() =~= n);
        StepExec::Continue
    }

    /// One character of the expression.
    fn step(&mut self, s: &[u8], len: usize) -> (r: StepExec)
        requires
            old(self).i < len <= s.len(),
        ensures
            match step(s@, len as int, old(self).state()) {
                StepResult::Next(n) => r is Continue && final(self).state() == n,
                StepResult::Fail(v) => r is Failed && opers_view(final(self).ret@) == v,
            },
            r is Continue ==> old(self).i < final(self).i <= len,
    {
        let ghost n = match step(s@, len as int, self.state()) {
            StepResult::Next(n) => n,
            _ => self.state(),
        };
        let c = s[self.i];
        if (c >= 48 && c <= 57) || (self.num_used && c == 46 && self.dot_used == 0) {
            if c == 46 {
                self.dot_used = 10;
            } else if self.dot_used > 0 {
                self.steps.push(DigitStep { digit: c - 48, divisor: self.dot_used });
                self.dot_used = self.dot_used.wrapping_mul(10);
            } else {
                self.steps.push(DigitStep { digit: c - 48, divisor: 0 });
            }
            self.num_used = true;
            self.i = self.i + 1;
            assert(self.state() =~= n);
            return StepExec::Continue;
        }
        if self.num_used {
            if !self.last_op {
                return StepExec::Failed;
            }
            let mut steps = Vec::new();
            std::mem::swap(&mut steps, &mut self.steps);
            let tok = Oper::Number(NumLit { negative: self.next_negative, var: self.var, steps });
            proof {
                lemma_view_push(self.ret@, tok);
            }
            self.ret.push(tok);
            self.next_negative = false;
            self.var = None;
            self.dot_used = 0;
            self.num_used = false;
            self.last_op = false;
        }
        proof {
            assert(Some(self.state()) =~= flush_number(old(self).state()));
        }
        self.step_after_flush(s, len, c)
    }
}

proof fn lemma_reverse_sub<A>(x: Seq<A>, k: int, n: int)
    requires
        0 < k <= n <= x.len(),
    ensures
        x.subrange(k - 1, n).reverse() == x.subrange(k, n).reverse().push(x[k - 1]),
{
    assert(x.subrange(k - 1, n).reverse() =~= x.subrange(k, n).reverse().push(x[k - 1]));
}

proof fn lemma_flush_ops_sub(x: Seq<u8>, k: int, n: int)
    requires
        0 < k <= n <= x.len(),
    ensures
        flush_ops(x.subrange(k - 1, n)) == flush_ops(x.subrange(k, n)).push(OperView::Operator(x[k - 1])),
{
    lemma_reverse_sub(x, k, n);
    assert(flush_ops(x.subrange(k - 1, n)) =~= flush_ops(x.subrange(k, n)).push(OperView::Operator(x[k - 1])));
}

impl Parser {
    /// The end of the expression: the last number and the remaining
    /// operators go to the output, which is then reversed.
    fn finish(self) -> (r: (Vec<Oper>, i32))
        ensures
            opers_view(r.0@) == finish(self.state()),
            r.1 == self.letter_answer,
    {
        let ghost st = self.state();
        let mut ret = self.ret;
        let mut tmp = self.tmp;
        if self.num_used {
            let tok = Oper::Number(NumLit { negative: self.next_negative, var: self.var, steps: self.steps });
            proof {
                lemma_view_push(ret@, tok);
            }
            ret.push(tok);
        }
        let ghost r1 = opers_view(ret@);
        let ghost tmp0 = tmp@;
        assert(tmp0.subrange(tmp0.len() as int, tmp0.len() as int).reverse() =~= Seq::<u8>::empty());
        assert(r1 + flush_ops(tmp0.subrange(tmp0.len() as int, tmp0.len() as int)) =~= r1);
        while tmp.len() > 0
            invariant
                tmp@ == tmp0.subrange(0, tmp.len() as int),
                tmp.len() <= tmp0.len(),
                opers_view(ret@) == r1 + flush_ops(tmp0.subrange(tmp.len() as int, tmp0.len() as int)),
            decreases tmp.len(),
        {
            let ghost k = tmp.len() as int;
            let t = tmp.pop().unwrap();
            proof {
                lemma_view_push(ret@, Oper::Operator(t));
                lemma_flush_ops_sub(tmp0, k, tmp0.len() as int);
                assert(r1 + flush_ops(tmp0.subrange(k - 1, tmp0.len() as int)) =~= (r1 + flush_ops(
                    tmp0.subrange(k, tmp0.len() as int),
                )).push(OperView::Operator(t)));
            }
            ret.push(Oper::Operator(t));
        }
        assert(tmp0.subrange(0, tmp0.len() as int) =~= tmp0);
        let ghost r2 = opers_view(ret@);
        assert(r2 == r1 + flush_ops(tmp0));
        let ghost n = ret.len() as int;
        let mut out: Vec<Oper> = Vec::new();
        assert(r2.subrange(n, n).reverse() =~= Seq::<OperView>::empty());
        while ret.len() > 0
            invariant
                ret.len() <= n,
                n == r2.len(),
                opers_view(ret@) == r2.subrange(0, ret.len() as int),
                opers_view(out@) == r2.subrange(ret.len() as int, n).reverse(),
            decreases ret.len(),
        {
            let ghost k = ret.len() as int;
            let ghost before = ret@;
            let x = ret.pop().unwrap();
            proof {
                assert(opers_view(before)[k - 1] == r2.subrange(0, k)[k - 1]);
                assert(opers_view(ret@) =~= r2.subrange(0, k - 1));
                assert(x@ == r2[k - 1]);
                lemma_view_push(out@, x);
                lemma_reverse_sub(r2, k, n);
            }
            out.push(x);
        }
        assert(r2.subrange(0, n) =~= r2);
        (out, self.letter_answer)
    }
}

/// Reads the first `len` bytes of the key buffer `s` as an expression, and
/// turns it into postfix form for evaluation.  Only those bytes are read.
///
/// On success the items come in reverse postfix order (the last item is
/// evaluated first), with the index of the variable that receives the result
/// (0..=25 for `A`..`Z`, 26 for `ANS`); the postfix form then leaves exactly
/// one value.  An invalid expression gives the output read so far and -1.
pub fn parse_expression(s: &[u8], len: usize) -> (r: (Vec<Oper>, i32))
    requires
        len <= s.len(),
    ensures
        match parse_spec(s@, len as int) {
            ParseOutcome::Parsed(t, l) => opers_view(r.0@) == t && r.1 == l,
            ParseOutcome::Failed(t) => opers_view(r.0@) == t && r.1 == -1,
        },
        r.1 == -1 || 0 <= r.1 <= 26,
        r.1 != -1 ==> postfix_depth(opers_view(r.0@).reverse()) == Some(1int),
{
    proof {
        lemma_parse_output_well_formed(s@, len as int);
        lemma_parsed_postfix_complete(s@, len as int);
    }
    let mut p = Parser::new();
    while p.i < len
        invariant
            len <= s.len(),
            p.i <= len,
            run(s@, len as int, p.state()) == parse_spec(s@, len as int),
            match parse_spec(s@, len as int) {
                ParseOutcome::Parsed(t, l) => 0 <= l <= 26,
                _ => true,
            },
        decreases len - p.i,
    {
        match p.step(s, len) {
            StepExec::Continue => {},
            StepExec::Failed => {
                return (p.ret, -1);
            },
        }
    }
    if p.num_used != p.last_op || has_open_paren(&p.tmp) {
        return (p.ret, -1);
    }
    proof {
        lemma_counts_nonneg(p.tmp@);
    }
    p.finish()
}

/// An output item the reader can produce: a number whose starting variable
/// is 0..=26 and whose digits are 0..=9, or an operator `+ * % - / ^`.
pub open spec fn item_ok(o: OperView) -> bool {
    match o {
        OperView::Number(n) => (n.var is None || n.var.unwrap() <= 26) && forall|k: int|
            0 <= k < n.steps.len() ==> #[trigger] n.steps[k].digit <= 9,
        OperView::Operator(c) => is_operator(c),
        OperView::Error => false,
    }
}

/// Every item of `v` is one the reader can produce.
pub open spec fn items_ok(v: Seq<OperView>) -> bool {
    forall|k: int| 0 <= k < v.len() ==> #[trigger] item_ok(v[k])
}

/// The operator stack holds only `(` and binary operators.
pub open spec fn stack_ok(t: Seq<u8>) -> bool {
    forall|k: int| 0 <= k < t.len() ==> #[trigger] t[k] == 40 || is_operator(t[k])
}

/// What holds of the reader between characters.
pub open spec fn state_ok(st: ParseState) -> bool {
    &&& items_ok(st.ret)
    &&& stack_ok(st.tmp)
    &&& (st.var is None || st.var.unwrap() <= 26)
    &&& (forall|k: int| 0 <= k < st.steps.len() ==> #[trigger] st.steps[k].digit <= 9)
    &&& 0 <= st.letter_answer <= 26
}

proof fn lemma_close_paren_ok(tmp: Seq<u8>, ret: Seq<OperView>)
    requires
        stack_ok(tmp),
        items_ok(ret),
    ensures
        match close_paren(tmp, ret) {
            Some((t, r)) => stack_ok(t) && items_ok(r),
            None => true,
        },
    decreases tmp.len(),
{
    if tmp.len() > 0 && tmp.last() != 40 {
        let r2 = ret.push(OperView::Operator(tmp.last()));
        assert(item_ok(r2[ret.len() as int]));
        assert(items_ok(r2));
        lemma_close_paren_ok(tmp.drop_last(), r2);
    }
}

proof fn lemma_reduce_ok(c: u8, t: u8, tmp: Seq<u8>, ret: Seq<OperView>)
    requires
        stack_ok(tmp),
        items_ok(ret),
        t == 40 || is_operator(t),
    ensures
        ({
            let (t2, tmp2, ret2) = reduce_ops(c, t, tmp, ret);
            stack_ok(tmp2) && items_ok(ret2) && (t2 == 40 || is_operator(t2))
        }),
    decreases tmp.len(),
{
    if tmp.len() > 0 && pops_before(c, t) {
        let r2 = ret.push(OperView::Operator(t));
        assert(item_ok(r2[ret.len() as int]));
        assert(items_ok(r2));
        lemma_reduce_ok(c, tmp.last(), tmp.drop_last(), r2);
    }
}

proof fn lemma_step_ok(s: Seq<u8>, len: int, st: ParseState)
    requires
        0 <= st.i < len <= s.len(),
        state_ok(st),
    ensures
        match step(s, len, st) {
            StepResult::Next(n) => state_ok(n),
            StepResult::Fail(r) => items_ok(r),
        },
{
    let c = s[st.i];
    if is_digit_byte(c) || (st.num_used && c == 46 && st.dot_used == 0) {
    } else {
        match flush_number(st) {
            None => {},
            Some(f) => {
                if st.num_used && st.last_op {
                    assert(item_ok(f.ret[st.ret.len() as int]));
                }
                assert(state_ok(f));
                if c == 41 && !f.last_op {
                    lemma_close_paren_ok(f.tmp, f.ret);
                } else if is_operator(c) && !f.last_op && f.tmp.len() > 0 {
                    lemma_reduce_ok(c, f.tmp.last(), f.tmp.drop_last(), f.ret);
                    let (t, tmp2, ret2) = reduce_ops(c, f.tmp.last(), f.tmp.drop_last(), f.ret);
                    if is_operator(t) && prec_of(c) <= prec_of(t) {
                        assert(item_ok(ret2.push(OperView::Operator(t))[ret2.len() as int]));
                    }
                }
            },
        }
    }
}

proof fn lemma_run_ok(s: Seq<u8>, len: int, st: ParseState)
    requires
        state_ok(st),
    ensures
        match run(s, len, st) {
            ParseOutcome::Parsed(t, l) => items_ok(t) && 0 <= l <= 26,
            ParseOutcome::Failed(t) => items_ok(t),
        },
    decreases len - st.i,
{
    if !(0 <= st.i < len && len <= s.len()) {
        let r1 = if st.num_used {
            st.ret.push(number_token(st))
        } else {
            st.ret
        };
        if st.num_used {
            assert(item_ok(r1[st.ret.len() as int]));
        }
        assert(items_ok(r1));
        if complete_at_end(st) {
        lemma_no_opens_all_ops(st.tmp);
        let r2 = r1 + flush_ops(st.tmp);
        assert(items_ok(r2)) by {
            assert forall|k: int| 0 <= k < r2.len() implies #[trigger] item_ok(r2[k]) by {
                if k >= r1.len() {
                    let j = k - r1.len();
                    assert(r2[k] == OperView::Operator(st.tmp[st.tmp.len() - 1 - j]));
                }
            }
        }
        assert(items_ok(r2.reverse())) by {
            assert forall|k: int| 0 <= k < r2.len() implies #[trigger] item_ok(r2.reverse()[k]) by {
                assert(r2.reverse()[k] == r2[r2.len() - 1 - k]);
            }
        }
        }
    } else {
        lemma_step_ok(s, len, st);
        match step(s, len, st) {
            StepResult::Next(n) => {
                if st.i < n.i <= len {
                    lemma_run_ok(s, len, n);
                }
            },
            _ => {},
        }
    }
}

/// Every item the reader outputs is a number with digits 0..=9 and a
/// variable 0..=26, or a binary operator; and the result slot of a read
/// expression is 0..=26.
pub proof fn lemma_parse_output_well_formed(s: Seq<u8>, len: int)
    ensures
        match parse_spec(s, len) {
            ParseOutcome::Parsed(t, l) => items_ok(t) && 0 <= l <= 26,
            ParseOutcome::Failed(t) => items_ok(t),
        },
{
    assert(state_ok(initial_state()));
    lemma_run_ok(s, len, initial_state());
}

proof fn lemma_depth_push(r: Seq<OperView>, x: OperView)
    ensures
        postfix_depth(r.push(x)) == match postfix_depth(r) {
            None => None,
            Some(d) => match eval_action_spec(d as nat, x) {
                EvalAction::Push => Some(d + 1),
                EvalAction::Apply(_) => Some(d - 1),
                EvalAction::Reject => None,
            },
        },
{
    assert(r.push(x).drop_last() =~= r);
}

proof fn lemma_flush_complete(r: Seq<OperView>, tmp: Seq<u8>)
    requires
        forall|k: int| 0 <= k < tmp.len() ==> is_operator(#[trigger] tmp[k]),
        postfix_depth(r) == Some(tmp.len() + 1int),
    ensures
        postfix_depth(r + flush_ops(tmp)) == Some(1int),
    decreases tmp.len(),
{
    if tmp.len() == 0 {
        assert(r + flush_ops(tmp) =~= r);
    } else {
        let t = tmp.last();
        let rest = tmp.drop_last();
        assert(r + flush_ops(tmp) =~= r.push(OperView::Operator(t)) + flush_ops(rest));
        lemma_depth_push(r, OperView::Operator(t));
        lemma_flush_complete(r.push(OperView::Operator(t)), rest);
    }
}

/// Where a recogniser of well-formed expressions stands: expecting an
/// operand, inside a number (with or without its decimal point), or after a
/// complete operand.
pub enum Shape {
    Expect,
    Number(bool),
    Closed,
}

/// Whether the rest of the first `len` bytes of `s`, from position `i`,
/// with `open` parentheses open and in shape `sh`, completes a well-formed
/// expression: numbers (digits with at most one decimal point, after an
/// optional unary minus), binary operators between operands, balanced
/// parentheses, and spaces between items.
pub open spec fn accepts(s: Seq<u8>, len: int, i: int, open: int, sh: Shape) -> bool
    decreases len - i,
{
    if i >= len || i < 0 {
        !(sh is Expect) && open == 0
    } else {
        let c = s[i];
        match sh {
            Shape::Expect => if c == 32 {
                accepts(s, len, i + 1, open, Shape::Expect)
            } else if c == 40 {
                accepts(s, len, i + 1, open + 1, Shape::Expect)
            } else if is_digit_byte(c) {
                accepts(s, len, i + 1, open, Shape::Number(false))
            } else if c == 45 && i + 1 < len && is_digit_byte(s[i + 1]) {
                accepts(s, len, i + 1, open, Shape::Expect)
            } else {
                false
            },
            Shape::Number(dot) => if is_digit_byte(c) {
                accepts(s, len, i + 1, open, Shape::Number(dot))
            } else if c == 46 && !dot {
                accepts(s, len, i + 1, open, Shape::Number(true))
            } else if c == 32 {
                accepts(s, len, i + 1, open, Shape::Closed)
            } else if is_operator(c) {
                accepts(s, len, i + 1, open, Shape::Expect)
            } else if c == 41 && open > 0 {
                accepts(s, len, i + 1, open - 1, Shape::Closed)
            } else {
                false
            },
            Shape::Closed => if c == 32 {
                accepts(s, len, i + 1, open, Shape::Closed)
            } else if is_operator(c) {
                accepts(s, len, i + 1, open, Shape::Expect)
            } else if c == 41 && open > 0 {
                accepts(s, len, i + 1, open - 1, Shape::Closed)
            } else {
                false
            },
        }
    }
}

/// The first `len` bytes of `s` are a well-formed arithmetic expression
/// (without variables).
pub open spec fn is_arith_expression(s: Seq<u8>, len: int) -> bool {
    0 < len <= s.len() && accepts(s, len, 0, 0, Shape::Expect)
}

/// Number of binary operators on an operator stack.
pub open spec fn ops_count(t: Seq<u8>) -> int
    decreases t.len(),
{
    if t.len() == 0 {
        0
    } else {
        ops_count(t.drop_last()) + if is_operator(t.last()) {
            1int
        } else {
            0int
        }
    }
}

/// Number of `(` on an operator stack.
pub open spec fn opens_count(t: Seq<u8>) -> int
    decreases t.len(),
{
    if t.len() == 0 {
        0
    } else {
        opens_count(t.drop_last()) + if t.last() == 40 {
            1int
        } else {
            0int
        }
    }
}

/// What holds of the reader at each shape of the recogniser: the output so
/// far leaves one value for each operator on the stack (and one more after
/// a complete operand), and the stack holds the open parentheses.
pub open spec fn arith_state(s: Seq<u8>, len: int, st: ParseState, open: int, sh: Shape) -> bool {
    &&& 0 <= st.i <= len <= s.len()
    &&& st.letter_answer == 26
    &&& stack_ok(st.tmp)
    &&& opens_count(st.tmp) == open
    &&& match sh {
        Shape::Expect => st.last_op && !st.num_used && st.dot_used == 0 && postfix_depth(st.ret) == Some(
            ops_count(st.tmp),
        ),
        Shape::Number(dot) => st.last_op && st.num_used && (!dot ==> st.dot_used == 0) && postfix_depth(
            st.ret,
        ) == Some(ops_count(st.tmp)),
        Shape::Closed => !st.last_op && !st.num_used && st.dot_used == 0 && postfix_depth(st.ret) == Some(
            ops_count(st.tmp) + 1,
        ),
    }
}

proof fn lemma_counts_push(t: Seq<u8>, x: u8)
    ensures
        ops_count(t.push(x)) == ops_count(t) + if is_operator(x) {
            1int
        } else {
            0int
        },
        opens_count(t.push(x)) == opens_count(t) + if x == 40 {
            1int
        } else {
            0int
        },
{
    assert(t.push(x).drop_last() =~= t);
}

proof fn lemma_counts_nonneg(t: Seq<u8>)
    ensures
        ops_count(t) >= 0,
        opens_count(t) >= 0,
    decreases t.len(),
{
    if t.len() > 0 {
        lemma_counts_nonneg(t.drop_last());
    }
}

proof fn lemma_no_opens_all_ops(t: Seq<u8>)
    requires
        stack_ok(t),
        opens_count(t) == 0,
    ensures
        forall|k: int| 0 <= k < t.len() ==> is_operator(#[trigger] t[k]),
        ops_count(t) == t.len(),
    decreases t.len(),
{
    if t.len() > 0 {
        lemma_counts_nonneg(t.drop_last());
        lemma_no_opens_all_ops(t.drop_last());
        assert forall|k: int| 0 <= k < t.len() implies is_operator(#[trigger] t[k]) by {
            if k < t.len() - 1 {
                assert(t[k] == t.drop_last()[k]);
            }
        }
    }
}

proof fn lemma_reduce_arith(c: u8, t: u8, tmp: Seq<u8>, ret: Seq<OperView>)
    requires
        is_operator(t) || t == 40,
        stack_ok(tmp),
        postfix_depth(ret) == Some(ops_count(tmp) + (if is_operator(t) { 1int } else { 0int }) + 1),
    ensures
        ({
            let (t2, tmp2, ret2) = reduce_ops(c, t, tmp, ret);
            &&& is_operator(t2) || t2 == 40
            &&& stack_ok(tmp2)
            &&& postfix_depth(ret2) == Some(ops_count(tmp2) + (if is_operator(t2) { 1int } else { 0int }) + 1)
            &&& opens_count(tmp2) + (if t2 == 40 { 1int } else { 0int }) == opens_count(tmp) + (if t == 40 {
                1int
            } else {
                0int
            })
        }),
    decreases tmp.len(),
{
    if tmp.len() > 0 && pops_before(c, t) {
        let rest = tmp.drop_last();
        lemma_counts_push(rest, tmp.last());
        assert(rest.push(tmp.last()) =~= tmp);
        lemma_counts_nonneg(rest);
        lemma_depth_push(ret, OperView::Operator(t));
        lemma_reduce_arith(c, tmp.last(), rest, ret.push(OperView::Operator(t)));
    }
}

proof fn lemma_close_arith(tmp: Seq<u8>, ret: Seq<OperView>)
    requires
        stack_ok(tmp),
        opens_count(tmp) >= 1,
        postfix_depth(ret) == Some(ops_count(tmp) + 1),
    ensures
        close_paren(tmp, ret) matches Some((t2, r2)) && stack_ok(t2) && opens_count(t2) == opens_count(tmp)
            - 1 && postfix_depth(r2) == Some(ops_count(t2) + 1),
    decreases tmp.len(),
{
    if tmp.len() == 0 {
    } else {
        let rest = tmp.drop_last();
        let t = tmp.last();
        lemma_counts_push(rest, t);
        assert(rest.push(t) =~= tmp);
        lemma_counts_nonneg(rest);
        if t != 40 {
            lemma_depth_push(ret, OperView::Operator(t));
            lemma_close_arith(rest, ret.push(OperView::Operator(t)));
        }
    }
}

proof fn lemma_push_operator_arith(c: u8, tmp: Seq<u8>, ret: Seq<OperView>)
    requires
        is_operator(c),
        stack_ok(tmp),
        postfix_depth(ret) == Some(ops_count(tmp) + 1),
    ensures
        ({
            let (t2, r2) = push_operator(c, tmp, ret);
            &&& stack_ok(t2)
            &&& opens_count(t2) == opens_count(tmp)
            &&& postfix_depth(r2) == Some(ops_count(t2))
        }),
{
    if tmp.len() == 0 {
        lemma_counts_push(tmp, c);
    } else {
        let t = tmp.last();
        let rest = tmp.drop_last();
        lemma_counts_push(rest, t);
        assert(rest.push(t) =~= tmp);
        lemma_reduce_arith(c, t, rest, ret);
        let (t3, tmp3, ret3) = reduce_ops(c, t, rest, ret);
        lemma_counts_nonneg(tmp3);
        if is_operator(t3) && prec_of(c) <= prec_of(t3) {
            lemma_depth_push(ret3, OperView::Operator(t3));
            lemma_counts_push(tmp3, c);
        } else {
            lemma_counts_push(tmp3, t3);
            lemma_counts_push(tmp3.push(t3), c);
        }
    }
}

proof fn lemma_run_arith(s: Seq<u8>, len: int, st: ParseState, open: int, sh: Shape)
    requires
        accepts(s, len, st.i, open, sh),
        arith_state(s, len, st, open, sh),
    ensures
        run(s, len, st) matches ParseOutcome::Parsed(t, l) && l == 26 && postfix_depth(t.reverse()) == Some(1int),
    decreases len - st.i,
{
    if st.i >= len {
        lemma_no_opens_all_ops(st.tmp);
        let r1 = if st.num_used {
            st.ret.push(number_token(st))
        } else {
            st.ret
        };
        if st.num_used {
            lemma_depth_push(st.ret, number_token(st));
        }
        lemma_flush_complete(r1, st.tmp);
        let r2 = r1 + flush_ops(st.tmp);
        assert(r2.reverse().reverse() =~= r2);
    } else {
        let c = s[st.i];
        let i = st.i;
        match sh {
            Shape::Expect => {
                if c == 32 {
                    let n = ParseState { i: i + 1, ..st };
                    assert(step(s, len, st) == StepResult::Next(n));
                    lemma_run_arith(s, len, n, open, Shape::Expect);
                } else if c == 40 {
                    let n = ParseState { tmp: st.tmp.push(c), i: i + 1, ..st };
                    lemma_counts_push(st.tmp, c);
                    assert(step(s, len, st) == StepResult::Next(n));
                    lemma_run_arith(s, len, n, open + 1, Shape::Expect);
                } else if is_digit_byte(c) {
                    let n = ParseState {
                        steps: st.steps.push(DigitStep { digit: (c - 48) as u8, divisor: 0 }),
                        num_used: true,
                        i: i + 1,
                        ..st
                    };
                    assert(step(s, len, st) == StepResult::Next(n));
                    lemma_run_arith(s, len, n, open, Shape::Number(false));
                } else {
                    let n = ParseState { next_negative: true, i: i + 1, ..st };
                    assert(step(s, len, st) == StepResult::Next(n));
                    lemma_run_arith(s, len, n, open, Shape::Expect);
                }
            },
            Shape::Number(dot) => {
                if is_digit_byte(c) {
                    let n = if st.dot_used > 0 {
                        ParseState {
                            steps: st.steps.push(DigitStep { digit: (c - 48) as u8, divisor: st.dot_used }),
                            dot_used: vstd::wrapping::u32_specs::wrapping_mul(st.dot_used, 10),
                            num_used: true,
                            i: i + 1,
                            ..st
                        }
                    } else {
                        ParseState {
                            steps: st.steps.push(DigitStep { digit: (c - 48) as u8, divisor: 0 }),
                            num_used: true,
                            i: i + 1,
                            ..st
                        }
                    };
                    assert(step(s, len, st) == StepResult::Next(n));
                    lemma_run_arith(s, len, n, open, Shape::Number(dot));
                } else if c == 46 && !dot {
                    let n = ParseState { dot_used: 10, num_used: true, i: i + 1, ..st };
                    assert(step(s, len, st) == StepResult::Next(n));
                    lemma_run_arith(s, len, n, open, Shape::Number(true));
                } else {
                    let f = flush_number(st).unwrap();
                    lemma_depth_push(st.ret, number_token(st));
                    assert(postfix_depth(f.ret) == Some(ops_count(f.tmp) + 1));
                    if c == 32 {
                        let n = ParseState { i: i + 1, ..f };
                        assert(step(s, len, st) == StepResult::Next(n));
                        lemma_run_arith(s, len, n, open, Shape::Closed);
                    } else if is_operator(c) {
                        lemma_push_operator_arith(c, f.tmp, f.ret);
                        let (t2, r2) = push_operator(c, f.tmp, f.ret);
                        let n = ParseState { tmp: t2, ret: r2, last_op: true, i: i + 1, ..f };
                        assert(step(s, len, st) == StepResult::Next(n));
                        lemma_run_arith(s, len, n, open, Shape::Expect);
                    } else {
                        lemma_close_arith(f.tmp, f.ret);
                        let (t2, r2) = close_paren(f.tmp, f.ret).unwrap();
                        let n = ParseState { tmp: t2, ret: r2, last_op: false, i: i + 1, ..f };
                        assert(step(s, len, st) == StepResult::Next(n));
                        lemma_run_arith(s, len, n, open - 1, Shape::Closed);
                    }
                }
            },
            Shape::Closed => {
                if c == 32 {
                    let n = ParseState { i: i + 1, ..st };
                    assert(step(s, len, st) == StepResult::Next(n));
                    lemma_run_arith(s, len, n, open, Shape::Closed);
                } else if is_operator(c) {
                    lemma_push_operator_arith(c, st.tmp, st.ret);
                    let (t2, r2) = push_operator(c, st.tmp, st.ret);
                    let n = ParseState { tmp: t2, ret: r2, last_op: true, i: i + 1, ..st };
                    assert(step(s, len, st) == StepResult::Next(n));
                    lemma_run_arith(s, len, n, open, Shape::Expect);
                } else {
                    lemma_close_arith(st.tmp, st.ret);
                    let (t2, r2) = close_paren(st.tmp, st.ret).unwrap();
                    let n = ParseState { tmp: t2, ret: r2, last_op: false, i: i + 1, ..st };
                    assert(step(s, len, st) == StepResult::Next(n));
                    lemma_run_arith(s, len, n, open - 1, Shape::Closed);
                }
            },
        }
    }
}

/// A well-formed arithmetic expression is read, its result goes to `ANS`,
/// and its postfix form is complete: the evaluator never runs short of
/// operands nor meets an unknown item, and ends with exactly one value.
pub proof fn lemma_arith_expression_postfix(s: Seq<u8>, len: int)
    requires
        is_arith_expression(s, len),
    ensures
        parse_spec(s, len) matches ParseOutcome::Parsed(t, l) && l == 26 && postfix_depth(t.reverse()) == Some(1int),
{
    assert(arith_state(s, len, initial_state(), 0, Shape::Expect));
    lemma_run_arith(s, len, initial_state(), 0, Shape::Expect);
}

/// What holds of the reader between characters for the postfix form: the
/// output leaves one value for each operator on the stack, and one more
/// after a complete operand.
pub open spec fn depth_ok(st: ParseState) -> bool {
    &&& stack_ok(st.tmp)
    &&& postfix_depth(st.ret) == Some(ops_count(st.tmp) + if st.last_op {
        0int
    } else {
        1int
    })
}

proof fn lemma_close_depth(tmp: Seq<u8>, ret: Seq<OperView>)
    requires
        stack_ok(tmp),
        postfix_depth(ret) == Some(ops_count(tmp) + 1),
    ensures
        match close_paren(tmp, ret) {
            Some((t2, r2)) => stack_ok(t2) && postfix_depth(r2) == Some(ops_count(t2) + 1),
            None => true,
        },
    decreases tmp.len(),
{
    if tmp.len() > 0 {
        let rest = tmp.drop_last();
        let t = tmp.last();
        lemma_counts_push(rest, t);
        assert(rest.push(t) =~= tmp);
        lemma_counts_nonneg(rest);
        if t != 40 {
            lemma_depth_push(ret, OperView::Operator(t));
            lemma_close_depth(rest, ret.push(OperView::Operator(t)));
        }
    }
}

proof fn lemma_step_depth(s: Seq<u8>, len: int, st: ParseState)
    requires
        0 <= st.i < len <= s.len(),
        depth_ok(st),
    ensures
        step(s, len, st) matches StepResult::Next(n) ==> depth_ok(n),
{
    let c = s[st.i];
    if is_digit_byte(c) || (st.num_used && c == 46 && st.dot_used == 0) {
    } else {
        match flush_number(st) {
            None => {},
            Some(f) => {
                if st.num_used && st.last_op {
                    lemma_depth_push(st.ret, number_token(st));
                }
                assert(depth_ok(f));
                if c == 40 && f.last_op {
                    lemma_counts_push(f.tmp, c);
                } else if c == 41 && !f.last_op {
                    lemma_close_depth(f.tmp, f.ret);
                } else if is_operator(c) && !f.last_op {
                    lemma_push_operator_arith(c, f.tmp, f.ret);
                }
            },
        }
    }
}

proof fn lemma_run_depth(s: Seq<u8>, len: int, st: ParseState)
    requires
        depth_ok(st),
    ensures
        run(s, len, st) matches ParseOutcome::Parsed(t, l) ==> postfix_depth(t.reverse()) == Some(1int),
    decreases len - st.i,
{
    if !(0 <= st.i < len && len <= s.len()) {
        if complete_at_end(st) {
            lemma_no_opens_all_ops(st.tmp);
            let r1 = if st.num_used {
                st.ret.push(number_token(st))
            } else {
                st.ret
            };
            if st.num_used {
                lemma_depth_push(st.ret, number_token(st));
            }
            lemma_flush_complete(r1, st.tmp);
            let r2 = r1 + flush_ops(st.tmp);
            assert(r2.reverse().reverse() =~= r2);
        }
    } else {
        lemma_step_depth(s, len, st);
        match step(s, len, st) {
            StepResult::Next(n) => {
                if st.i < n.i <= len {
                    lemma_run_depth(s, len, n);
                }
            },
            _ => {},
        }
    }
}

/// Whatever is typed, an expression that is read (not rejected) has a
/// complete postfix form: the evaluator never runs short of operands nor
/// meets an unknown item, and ends with exactly one value.
pub proof fn lemma_parsed_postfix_complete(s: Seq<u8>, len: int)
    ensures
        parse_spec(s, len) matches ParseOutcome::Parsed(t, l) ==> postfix_depth(t.reverse()) == Some(1int),
{
    assert(depth_ok(initial_state()));
    lemma_run_depth(s, len, initial_state());
}

proof fn lemma_skip_spaces_prefix(s1: Seq<u8>, s2: Seq<u8>, len: int, j: int)
    requires
        len <= s1.len(),
        len <= s2.len(),
        forall|k: int| 0 <= k < len ==> s1[k] == s2[k],
    ensures
        skip_spaces(s1, len, j) == skip_spaces(s2, len, j),
        skip_spaces(s1, len, j) >= j,
    decreases len - j,
{
    if j < len && 0 <= j {
        lemma_skip_spaces_prefix(s1, s2, len, j + 1);
    }
}

proof fn lemma_step_after_flush_prefix(s1: Seq<u8>, s2: Seq<u8>, len: int, f: ParseState, c: u8)
    requires
        0 <= f.i < len,
        len <= s1.len(),
        len <= s2.len(),
        forall|k: int| 0 <= k < len ==> s1[k] == s2[k],
    ensures
        step_after_flush(s1, len, f, c) == step_after_flush(s2, len, f, c),
{
    let i = f.i;
    if i + 1 < len {
        assert(s1[i + 1] == s2[i + 1]);
    }
    if i + 2 < len {
        assert(s1[i + 2] == s2[i + 2]);
    }
    let ans = i + 2 < len && s1[i + 1] == 78 && s1[i + 2] == 83;
    assert(ans == (i + 2 < len && s2[i + 1] == 78 && s2[i + 2] == 83));
    let j0 = if ans { i + 3 } else { i + 1 };
    lemma_skip_spaces_prefix(s1, s2, len, j0);
    let j = skip_spaces(s1, len, j0);
    if 0 <= j < len {
        assert(s1[j] == s2[j]);
    }
    assert((j < len && s1[j] == 61) == (j < len && s2[j] == 61));
    assert((i + 1 < len && is_digit_byte(s1[i + 1])) == (i + 1 < len && is_digit_byte(s2[i + 1])));
}

proof fn lemma_step_prefix(s1: Seq<u8>, s2: Seq<u8>, len: int, st: ParseState)
    requires
        0 <= st.i < len,
        len <= s1.len(),
        len <= s2.len(),
        forall|k: int| 0 <= k < len ==> s1[k] == s2[k],
    ensures
        step(s1, len, st) == step(s2, len, st),
{
    let c = s1[st.i];
    assert(c == s2[st.i]);
    if let Some(f) = flush_number(st) {
        lemma_step_after_flush_prefix(s1, s2, len, f, c);
    }
}

proof fn lemma_run_prefix(s1: Seq<u8>, s2: Seq<u8>, len: int, st: ParseState)
    requires
        len <= s1.len(),
        len <= s2.len(),
        forall|k: int| 0 <= k < len ==> s1[k] == s2[k],
    ensures
        run(s1, len, st) == run(s2, len, st),
    decreases len - st.i,
{
    if 0 <= st.i < len {
        lemma_step_prefix(s1, s2, len, st);
        match step(s1, len, st) {
            StepResult::Next(n) => {
                if st.i < n.i <= len {
                    lemma_run_prefix(s1, s2, len, n);
                }
            },
            _ => {},
        }
    }
}

/// The reader looks at the first `len` bytes of the buffer and nothing
/// after them: two buffers that agree there read the same.
pub proof fn lemma_parse_reads_only_prefix(s1: Seq<u8>, s2: Seq<u8>, len: int)
    requires
        0 <= len <= s1.len(),
        len <= s2.len(),
        s1.take(len) == s2.take(len),
    ensures
        parse_spec(s1, len) == parse_spec(s2, len),
{
    assert forall|k: int| 0 <= k < len implies s1[k] == s2[k] by {
        assert(s1[k] == s1.take(len)[k]);
        assert(s2[k] == s2.take(len)[k]);
    }
    lemma_run_prefix(s1, s2, len, initial_state());
}

/// `x` has exactly `n` trailing zero bits.
pub open spec fn trailing_zeros_are(x: u32, n: u32) -> bool {
    x & !(0xffff_ffffu32 << n) == 0 && x & (1u32 << n) != 0
}

proof fn lemma_times_ten_bits(x: u32, y: u32, n: u32, m: u32)
    by (bit_vector)
    requires
        n < 31,
        m == n + 1,
        y == (x * 10) % 0x1_0000_0000,
        x & !(0xffff_ffffu32 << n) == 0,
        x & (1u32 << n) != 0,
    ensures
        y & !(0xffff_ffffu32 << m) == 0,
        y & (1u32 << m) != 0,
{
}

proof fn lemma_bit_nonzero(x: u32, n: u32)
    by (bit_vector)
    requires
        x & (1u32 << n) != 0,
    ensures
        x != 0,
{
}

proof fn lemma_dot_step(x: u32, n: u32)
    requires
        n < 31,
        trailing_zeros_are(x, n),
    ensures
        trailing_zeros_are(vstd::wrapping::u32_specs::wrapping_mul(x, 10), (n + 1) as u32),
        x != 0,
{
    let y = vstd::wrapping::u32_specs::wrapping_mul(x, 10);
    assert(y == (x * 10) % 0x1_0000_0000);
    lemma_times_ten_bits(x, y, n, (n + 1) as u32);
    lemma_bit_nonzero(x, n);
}

/// No letter among the first `len` bytes of `s`.
#[verifier::opaque]
pub open spec fn letter_free(s: Seq<u8>, len: int) -> bool {
    forall|k: int| 0 <= k < len ==> !is_upper_letter(#[trigger] s[k])
}

/// No decimal point among the first `len` bytes of `s` is followed by 31
/// digits or more.
#[verifier::opaque]
pub open spec fn short_fractions(s: Seq<u8>, len: int) -> bool {
    forall|i: int, j: int|
        #![trigger s[i], s[j]]
        0 <= i < j < len && s[i] == 46 && (forall|k: int| i < k <= j ==> is_digit_byte(#[trigger] s[k]))
            ==> j - i < 31
}

/// How the reader's state matches a shape of the recogniser; `dpos` is the
/// position of the decimal point of the number being read, if it has one.
pub open spec fn shape_state(s: Seq<u8>, len: int, st: ParseState, open: int, sh: Shape, dpos: int) -> bool {
    &&& 0 <= st.i <= len <= s.len()
    &&& depth_ok(st)
    &&& opens_count(st.tmp) == open
    &&& match sh {
        Shape::Expect => st.last_op && !st.num_used && st.dot_used == 0,
        Shape::Number(dot) => st.last_op && st.num_used && if dot {
            &&& 0 <= dpos < st.i
            &&& st.i - dpos <= 31
            &&& trailing_zeros_are(st.dot_used, (st.i - dpos) as u32)
            &&& s[dpos] == 46
            &&& forall|k: int| dpos < k < st.i ==> is_digit_byte(#[trigger] s[k])
        } else {
            st.dot_used == 0
        },
        Shape::Closed => !st.last_op && !st.num_used && st.dot_used == 0,
    }
}

proof fn lemma_no_letter_at(s: Seq<u8>, len: int, i: int)
    requires
        letter_free(s, len),
        0 <= i < len,
    ensures
        !is_upper_letter(s[i]),
{
    reveal(letter_free);
}

proof fn lemma_fraction_short(s: Seq<u8>, len: int, dpos: int, j: int)
    requires
        short_fractions(s, len),
        0 <= dpos < j < len,
        s[dpos] == 46,
        forall|k: int| dpos < k <= j ==> is_digit_byte(#[trigger] s[k]),
    ensures
        j - dpos < 31,
{
    reveal(short_fractions);
    assert(is_digit_byte(s[j]));
}

/// A number right after a complete operand makes the expression fail.
proof fn lemma_run_number_after_operand(s: Seq<u8>, len: int, st: ParseState)
    requires
        st.num_used,
        !st.last_op,
    ensures
        run(s, len, st) is Failed,
    decreases len - st.i,
{
    if 0 <= st.i < len && len <= s.len() {
        let c = s[st.i];
        if is_digit_byte(c) || (st.num_used && c == 46 && st.dot_used == 0) {
            match step(s, len, st) {
                StepResult::Next(n) => {
                    if st.i < n.i <= len {
                        lemma_run_number_after_operand(s, len, n);
                    }
                },
                _ => {},
            }
        }
    }
}

proof fn lemma_run_accepts(s: Seq<u8>, len: int, st: ParseState, open: int, sh: Shape, dpos: int)
    requires
        letter_free(s, len),
        short_fractions(s, len),
        shape_state(s, len, st, open, sh, dpos),
        run(s, len, st) is Parsed,
    ensures
        accepts(s, len, st.i, open, sh),
    decreases len - st.i, 2int,
{
    if st.i < len {
        match sh {
            Shape::Expect => lemma_accepts_expect(s, len, st, open, dpos),
            Shape::Number(dot) => lemma_accepts_number(s, len, st, open, dot, dpos),
            Shape::Closed => lemma_accepts_closed(s, len, st, open, dpos),
        }
    }
}

proof fn lemma_accepts_expect(s: Seq<u8>, len: int, st: ParseState, open: int, dpos: int)
    requires
        letter_free(s, len),
        short_fractions(s, len),
        shape_state(s, len, st, open, Shape::Expect, dpos),
        run(s, len, st) is Parsed,
        st.i < len,
    ensures
        accepts(s, len, st.i, open, Shape::Expect),
    decreases len - st.i, 1int,
{
    let c = s[st.i];
    let i = st.i;
    lemma_no_letter_at(s, len, i);
    lemma_step_depth(s, len, st);
    if c == 32 {
        let n = ParseState { i: i + 1, ..st };
        assert(step(s, len, st) == StepResult::Next(n));
        lemma_run_accepts(s, len, n, open, Shape::Expect, dpos);
    } else if c == 40 {
        let n = ParseState { tmp: st.tmp.push(c), i: i + 1, ..st };
        lemma_counts_push(st.tmp, c);
        assert(step(s, len, st) == StepResult::Next(n));
        lemma_run_accepts(s, len, n, open + 1, Shape::Expect, dpos);
    } else if is_digit_byte(c) {
        let n = ParseState {
            steps: st.steps.push(DigitStep { digit: (c - 48) as u8, divisor: 0 }),
            num_used: true,
            i: i + 1,
            ..st
        };
        assert(step(s, len, st) == StepResult::Next(n));
        lemma_run_accepts(s, len, n, open, Shape::Number(false), dpos);
    } else if c == 45 && i + 1 < len && is_digit_byte(s[i + 1]) {
        let n = ParseState { next_negative: true, i: i + 1, ..st };
        assert(step(s, len, st) == StepResult::Next(n));
        lemma_run_accepts(s, len, n, open, Shape::Expect, dpos);
    } else {
        assert(step(s, len, st) is Fail);
    }
}

proof fn lemma_accepts_number(s: Seq<u8>, len: int, st: ParseState, open: int, dot: bool, dpos: int)
    requires
        letter_free(s, len),
        short_fractions(s, len),
        shape_state(s, len, st, open, Shape::Number(dot), dpos),
        run(s, len, st) is Parsed,
        st.i < len,
    ensures
        accepts(s, len, st.i, open, Shape::Number(dot)),
    decreases len - st.i, 1int,
{
    let c = s[st.i];
    let i = st.i;
    lemma_no_letter_at(s, len, i);
    lemma_step_depth(s, len, st);
    if is_digit_byte(c) {
        lemma_number_digit(s, len, st, open, dot, dpos);
    } else if c == 46 && !dot {
        let n = ParseState { dot_used: 10, num_used: true, i: i + 1, ..st };
        assert(step(s, len, st) == StepResult::Next(n));
        assert(trailing_zeros_are(10u32, 1u32)) by (bit_vector);
        lemma_run_accepts(s, len, n, open, Shape::Number(true), i);
    } else {
        lemma_number_flush(s, len, st, open, dot, dpos);
    }
}

proof fn lemma_number_digit(s: Seq<u8>, len: int, st: ParseState, open: int, dot: bool, dpos: int)
    requires
        letter_free(s, len),
        short_fractions(s, len),
        shape_state(s, len, st, open, Shape::Number(dot), dpos),
        run(s, len, st) is Parsed,
        st.i < len,
        is_digit_byte(s[st.i]),
    ensures
        accepts(s, len, st.i, open, Shape::Number(dot)),
    decreases len - st.i, 0int,
{
    let c = s[st.i];
    let i = st.i;
    lemma_no_letter_at(s, len, i);
    lemma_step_depth(s, len, st);
    if dot {
        let k = (i - dpos) as u32;
        assert forall|kk: int| dpos < kk <= i implies is_digit_byte(#[trigger] s[kk]) by {
            if kk < i {
                assert(is_digit_byte(s[kk]));
            }
        }
        lemma_fraction_short(s, len, dpos, i);
        lemma_dot_step(st.dot_used, k);
        let n = ParseState {
            steps: st.steps.push(DigitStep { digit: (c - 48) as u8, divisor: st.dot_used }),
            dot_used: vstd::wrapping::u32_specs::wrapping_mul(st.dot_used, 10),
            num_used: true,
            i: i + 1,
            ..st
        };
        assert(step(s, len, st) == StepResult::Next(n));
        assert(((n.i - dpos) as u32) == (k + 1) as u32);
        lemma_run_accepts(s, len, n, open, Shape::Number(true), dpos);
    } else {
        let n = ParseState {
            steps: st.steps.push(DigitStep { digit: (c - 48) as u8, divisor: 0 }),
            num_used: true,
            i: i + 1,
            ..st
        };
        assert(step(s, len, st) == StepResult::Next(n));
        lemma_run_accepts(s, len, n, open, Shape::Number(false), dpos);
    }
}

proof fn lemma_number_flush(s: Seq<u8>, len: int, st: ParseState, open: int, dot: bool, dpos: int)
    requires
        letter_free(s, len),
        short_fractions(s, len),
        shape_state(s, len, st, open, Shape::Number(dot), dpos),
        run(s, len, st) is Parsed,
        st.i < len,
        !is_digit_byte(s[st.i]),
        !(s[st.i] == 46 && !dot),
    ensures
        accepts(s, len, st.i, open, Shape::Number(dot)),
    decreases len - st.i, 0int,
{
    let c = s[st.i];
    let i = st.i;
    lemma_no_letter_at(s, len, i);
    lemma_step_depth(s, len, st);
    if dot {
        lemma_bit_nonzero(st.dot_used, (i - dpos) as u32);
    }
    let f = flush_number(st).unwrap();
    lemma_depth_push(st.ret, number_token(st));
    if c == 32 {
        let n = ParseState { i: i + 1, ..f };
        assert(step(s, len, st) == StepResult::Next(n));
        lemma_run_accepts(s, len, n, open, Shape::Closed, dpos);
    } else if is_operator(c) {
        lemma_push_operator_arith(c, f.tmp, f.ret);
        let (t2, r2) = push_operator(c, f.tmp, f.ret);
        let n = ParseState { tmp: t2, ret: r2, last_op: true, i: i + 1, ..f };
        assert(step(s, len, st) == StepResult::Next(n));
        lemma_run_accepts(s, len, n, open, Shape::Expect, dpos);
    } else if c == 41 {
        lemma_close_paren_some(f.tmp, f.ret);
        if open > 0 {
            lemma_close_arith(f.tmp, f.ret);
            let (t2, r2) = close_paren(f.tmp, f.ret).unwrap();
            let n = ParseState { tmp: t2, ret: r2, last_op: false, i: i + 1, ..f };
            assert(step(s, len, st) == StepResult::Next(n));
            lemma_run_accepts(s, len, n, open - 1, Shape::Closed, dpos);
        } else {
            assert(step(s, len, st) is Fail);
        }
    } else {
        assert(step(s, len, st) is Fail);
    }
}

proof fn lemma_accepts_closed(s: Seq<u8>, len: int, st: ParseState, open: int, dpos: int)
    requires
        letter_free(s, len),
        short_fractions(s, len),
        shape_state(s, len, st, open, Shape::Closed, dpos),
        run(s, len, st) is Parsed,
        st.i < len,
    ensures
        accepts(s, len, st.i, open, Shape::Closed),
    decreases len - st.i, 1int,
{
    let c = s[st.i];
    let i = st.i;
    lemma_no_letter_at(s, len, i);
    lemma_step_depth(s, len, st);
    if c == 32 {
        let n = ParseState { i: i + 1, ..st };
        assert(step(s, len, st) == StepResult::Next(n));
        lemma_run_accepts(s, len, n, open, Shape::Closed, dpos);
    } else if is_operator(c) {
        lemma_push_operator_arith(c, st.tmp, st.ret);
        let (t2, r2) = push_operator(c, st.tmp, st.ret);
        let n = ParseState { tmp: t2, ret: r2, last_op: true, i: i + 1, ..st };
        assert(step(s, len, st) == StepResult::Next(n));
        lemma_run_accepts(s, len, n, open, Shape::Expect, dpos);
    } else if c == 41 {
        lemma_close_paren_some(st.tmp, st.ret);
        if open > 0 {
            lemma_close_arith(st.tmp, st.ret);
            let (t2, r2) = close_paren(st.tmp, st.ret).unwrap();
            let n = ParseState { tmp: t2, ret: r2, last_op: false, i: i + 1, ..st };
            assert(step(s, len, st) == StepResult::Next(n));
            lemma_run_accepts(s, len, n, open - 1, Shape::Closed, dpos);
        } else {
            assert(step(s, len, st) is Fail);
        }
    } else if is_digit_byte(c) {
        let n = ParseState {
            steps: st.steps.push(DigitStep { digit: (c - 48) as u8, divisor: 0 }),
            num_used: true,
            i: i + 1,
            ..st
        };
        assert(step(s, len, st) == StepResult::Next(n));
        lemma_run_number_after_operand(s, len, n);
    } else {
        assert(step(s, len, st) is Fail);
    }
}

/// On expressions without variables (and without a decimal fraction of 31
/// digits or more), the reader accepts exactly the well-formed arithmetic
/// expressions: it answers -1 on every other input.
pub proof fn lemma_parse_accepts_exactly_arith(s: Seq<u8>, len: int)
    requires
        0 <= len <= s.len(),
        letter_free(s, len),
        short_fractions(s, len),
    ensures
        (parse_spec(s, len) is Parsed) == is_arith_expression(s, len),
{
    if is_arith_expression(s, len) {
        lemma_arith_expression_postfix(s, len);
    }
    if parse_spec(s, len) is Parsed {
        assert(shape_state(s, len, initial_state(), 0, Shape::Expect, 0));
        lemma_run_accepts(s, len, initial_state(), 0, Shape::Expect, 0);
        if len == 0 {
            assert(!complete_at_end(initial_state()));
        }
    }
}

/// The usual binding strength of an arithmetic operator: `^` binds
/// tightest, then `*`, `/` and `%`, then `+` and `-`; all group from the
/// left.
pub open spec fn usual_level(o: u8) -> int {
    if o == 94 {
        3
    } else if o == 42 || o == 47 || o == 37 {
        2
    } else {
        1
    }
}

/// The operators `ops`, top of the stack first, as output items.
pub open spec fn popped_items(ops: Seq<u8>) -> Seq<OperView> {
    ops.reverse().map_values(|o: u8| OperView::Operator(o))
}

proof fn lemma_popped_push(ops: Seq<u8>, t: u8)
    ensures
        popped_items(ops.push(t)) == seq![OperView::Operator(t)] + popped_items(ops),
{
    assert(popped_items(ops.push(t)) =~= seq![OperView::Operator(t)] + popped_items(ops));
}

proof fn lemma_reduce_shape(c: u8, t: u8, tmp: Seq<u8>, ret: Seq<OperView>) -> (kp: int)
    requires
        is_operator(c),
    ensures
        ({
            let st = tmp.push(t);
            let (t2, tmp2, ret2) = reduce_ops(c, t, tmp, ret);
            &&& 0 <= kp <= tmp.len()
            &&& t2 == st[kp]
            &&& tmp2 == st.take(kp)
            &&& ret2 == ret + popped_items(st.skip(kp + 1))
            &&& forall|i: int| kp < i < st.len() ==> is_operator(#[trigger] st[i]) && usual_level(st[i]) >= usual_level(c)
            &&& (kp > 0 ==> !pops_before(c, t2))
        }),
    decreases tmp.len(),
{
    let st = tmp.push(t);
    if tmp.len() > 0 && pops_before(c, t) {
        let r2 = ret.push(OperView::Operator(t));
        let kp = lemma_reduce_shape(c, tmp.last(), tmp.drop_last(), r2);
        let sub = tmp.drop_last().push(tmp.last());
        assert(sub =~= tmp);
        assert(st.take(kp) =~= sub.take(kp));
        assert(st.skip(kp + 1) =~= sub.skip(kp + 1).push(t));
        lemma_popped_push(sub.skip(kp + 1), t);
        assert(ret + popped_items(st.skip(kp + 1)) =~= r2 + popped_items(sub.skip(kp + 1)));
        assert forall|i: int| kp < i < st.len() implies is_operator(#[trigger] st[i]) && usual_level(st[i]) >= usual_level(c) by {
            if i < tmp.len() {
                assert(st[i] == sub[i]);
            }
        }
        kp
    } else {
        let kp = tmp.len() as int;
        assert(st.take(kp) =~= tmp);
        assert(st.skip(kp + 1) =~= Seq::<u8>::empty());
        assert(popped_items(Seq::<u8>::empty()) =~= Seq::<OperView>::empty());
        assert(ret + Seq::<OperView>::empty() =~= ret);
        kp
    }
}

/// When an operator `c` is read after an operand, the operators output are
/// exactly the run at the top of the stack, down to the nearest `(` or
/// operator that binds less tightly than `c`, each of them binding at least
/// as tightly as `c` (so all of them, grouping from the left, go before it);
/// they leave top first, and `c` is stacked in their place.
pub proof fn lemma_operator_pops_tighter(c: u8, tmp: Seq<u8>, ret: Seq<OperView>) -> (k: int)
    requires
        is_operator(c),
    ensures
        0 <= k <= tmp.len(),
        forall|i: int| k <= i < tmp.len() ==> is_operator(#[trigger] tmp[i]) && usual_level(tmp[i]) >= usual_level(c),
        k == 0 || !(is_operator(tmp[k - 1]) && usual_level(tmp[k - 1]) >= usual_level(c)),
        push_operator(c, tmp, ret) == (tmp.take(k).push(c), ret + popped_items(tmp.skip(k))),
{
    if tmp.len() == 0 {
        assert(tmp.take(0) =~= tmp);
        assert(tmp.skip(0) =~= Seq::<u8>::empty());
        assert(popped_items(Seq::<u8>::empty()) =~= Seq::<OperView>::empty());
        assert(ret + Seq::<OperView>::empty() =~= ret);
        0
    } else {
        let t = tmp.last();
        let rest = tmp.drop_last();
        assert(rest.push(t) =~= tmp);
        let kp = lemma_reduce_shape(c, t, rest, ret);
        let (t2, tmp2, ret2) = reduce_ops(c, t, rest, ret);
        if is_operator(t2) && prec_of(c) <= prec_of(t2) {
            let k = kp;
            assert(tmp.skip(k) =~= seq![t2] + tmp.skip(k + 1));
            assert(popped_items(tmp.skip(k)) =~= popped_items(tmp.skip(k + 1)).push(OperView::Operator(t2)));
            assert(ret2.push(OperView::Operator(t2)) =~= ret + popped_items(tmp.skip(k)));
            if k > 0 {
                assert(!pops_before(c, t2));
                assert(false);
            }
            k
        } else {
            let k = kp + 1;
            assert(tmp2.push(t2) =~= tmp.take(k));
            assert(ret2 =~= ret + popped_items(tmp.skip(k)));
            k
        }
    }
}

/// Between parentheses, the operators on the stack bind more tightly from
/// bottom to top: each operator right above another binds strictly tighter.
pub open spec fn stack_rising(t: Seq<u8>) -> bool {
    forall|i: int, j: int|
        #![trigger t[i], t[j]]
        0 <= i < j < t.len() && j == i + 1 && is_operator(t[i]) && is_operator(t[j]) ==> usual_level(t[i])
            < usual_level(t[j])
}

proof fn lemma_close_paren_prefix(tmp: Seq<u8>, ret: Seq<OperView>)
    ensures
        close_paren(tmp, ret) matches Some((t2, r2)) ==> t2.len() <= tmp.len() && t2 == tmp.take(t2.len() as int),
    decreases tmp.len(),
{
    if tmp.len() > 0 {
        lemma_close_paren_prefix(tmp.drop_last(), ret.push(OperView::Operator(tmp.last())));
        if tmp.last() == 40 {
            assert(tmp.drop_last() =~= tmp.take(tmp.len() - 1));
        } else {
            match close_paren(tmp, ret) {
                Some((t2, r2)) => {
                    assert(tmp.drop_last().take(t2.len() as int) =~= tmp.take(t2.len() as int));
                },
                None => {},
            }
        }
    }
}

proof fn lemma_rising_prefix(t: Seq<u8>, n: int)
    requires
        stack_rising(t),
        0 <= n <= t.len(),
    ensures
        stack_rising(t.take(n)),
{
    let p = t.take(n);
    assert forall|i: int, j: int|
        0 <= i < j < p.len() && j == i + 1 && is_operator(p[i]) && is_operator(p[j]) implies usual_level(p[i])
        < usual_level(p[j]) by {
        assert(p[i] == t[i] && p[j] == t[j]);
    }
}

/// Whatever the reader reads, it keeps its operator stack rising: stacked
/// operators bind more tightly towards the top (between parentheses), so an
/// operator is never left below one that binds as tightly or less.
pub proof fn lemma_step_keeps_stack_rising(s: Seq<u8>, len: int, st: ParseState)
    requires
        0 <= st.i < len <= s.len(),
        stack_rising(st.tmp),
    ensures
        step(s, len, st) matches StepResult::Next(n) ==> stack_rising(n.tmp),
{
    let c = s[st.i];
    if !(is_digit_byte(c) || (st.num_used && c == 46 && st.dot_used == 0)) {
        if let Some(f) = flush_number(st) {
            assert(f.tmp == st.tmp);
            if c == 40 && f.last_op {
                let t2 = f.tmp.push(c);
                assert forall|i: int, j: int|
                    0 <= i < j < t2.len() && j == i + 1 && is_operator(t2[i]) && is_operator(t2[j]) implies usual_level(
                    t2[i],
                ) < usual_level(t2[j]) by {
                    assert(t2[i] == f.tmp[i] && t2[j] == f.tmp[j]);
                }
            } else if c == 41 && !f.last_op {
                lemma_close_paren_prefix(f.tmp, f.ret);
                if let Some((t2, r2)) = close_paren(f.tmp, f.ret) {
                    lemma_rising_prefix(f.tmp, t2.len() as int);
                }
            } else if is_operator(c) && !f.last_op {
                let k = lemma_operator_pops_tighter(c, f.tmp, f.ret);
                let p = f.tmp.take(k);
                lemma_rising_prefix(f.tmp, k);
                let t2 = p.push(c);
                assert forall|i: int, j: int|
                    0 <= i < j < t2.len() && j == i + 1 && is_operator(t2[i]) && is_operator(t2[j]) implies usual_level(
                    t2[i],
                ) < usual_level(t2[j]) by {
                    if j < p.len() {
                        assert(t2[i] == p[i] && t2[j] == p[j]);
                    } else {
                        assert(t2[i] == f.tmp[k - 1]);
                    }
                }
            }
        }
    }
}

/// A `)` outputs the operators above the nearest `(`, top first, and drops
/// that `(`; with no `(` on the stack it fails.
pub proof fn lemma_close_paren_pops_to_open(tmp: Seq<u8>, ret: Seq<OperView>) -> (m: int)
    requires
        stack_ok(tmp),
    ensures
        close_paren(tmp, ret) is None <==> forall|i: int| 0 <= i < tmp.len() ==> #[trigger] tmp[i] != 40,
        close_paren(tmp, ret) is Some ==> {
            &&& 0 <= m < tmp.len()
            &&& tmp[m] == 40
            &&& forall|i: int| m < i < tmp.len() ==> #[trigger] tmp[i] != 40
            &&& close_paren(tmp, ret) == Some((tmp.take(m), ret + popped_items(tmp.skip(m + 1))))
        },
    decreases tmp.len(),
{
    if tmp.len() == 0 {
        0
    } else if tmp.last() == 40 {
        let m = tmp.len() - 1;
        assert(tmp.drop_last() =~= tmp.take(m));
        assert(tmp.skip(m + 1) =~= Seq::<u8>::empty());
        assert(popped_items(Seq::<u8>::empty()) =~= Seq::<OperView>::empty());
        assert(ret + Seq::<OperView>::empty() =~= ret);
        m
    } else {
        let t = tmp.last();
        let rest = tmp.drop_last();
        assert(stack_ok(rest)) by {
            assert forall|k: int| 0 <= k < rest.len() implies #[trigger] rest[k] == 40 || is_operator(rest[k]) by {
                assert(rest[k] == tmp[k]);
            }
        }
        let r2 = ret.push(OperView::Operator(t));
        let m = lemma_close_paren_pops_to_open(rest, r2);
        assert forall|i: int| 0 <= i < tmp.len() && (forall|k: int| 0 <= k < rest.len() ==> #[trigger] rest[k] != 40) implies #[trigger] tmp[i] != 40 by {
            if i < rest.len() {
                assert(tmp[i] == rest[i]);
            }
        }
        assert((forall|i: int| 0 <= i < tmp.len() ==> #[trigger] tmp[i] != 40) ==> (forall|k: int| 0 <= k < rest.len() ==> #[trigger] rest[k] != 40)) by {
            if forall|i: int| 0 <= i < tmp.len() ==> #[trigger] tmp[i] != 40 {
                assert forall|k: int| 0 <= k < rest.len() implies #[trigger] rest[k] != 40 by {
                    assert(rest[k] == tmp[k]);
                }
            }
        }
        if close_paren(rest, r2) is Some {
            assert(rest[m] == tmp[m]);
            assert forall|i: int| m < i < tmp.len() implies #[trigger] tmp[i] != 40 by {
                if i < rest.len() {
                    assert(rest[i] == tmp[i]);
                }
            }
            assert(rest.take(m) =~= tmp.take(m));
            assert(tmp.skip(m + 1) =~= rest.skip(m + 1).push(t));
            lemma_popped_push(rest.skip(m + 1), t);
            assert(r2 + popped_items(rest.skip(m + 1)) =~= ret + popped_items(tmp.skip(m + 1)));
        }
        m
    }
}

/// At the end of an expression the number being read is output, then the
/// operators left on the stack, top first; the whole is handed back
/// reversed.
pub proof fn lemma_finish_flushes_top_first(st: ParseState)
    ensures
        finish(st).reverse() == (if st.num_used {
            st.ret.push(number_token(st))
        } else {
            st.ret
        }) + popped_items(st.tmp),
{
    let r = finish(st);
    assert(r.reverse() =~= (if st.num_used {
        st.ret.push(number_token(st))
    } else {
        st.ret
    }) + popped_items(st.tmp));
}

} // verus!

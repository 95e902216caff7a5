use vstd::prelude::*;

verus! {

/// Associativity of an operator of the calculator.
#[derive(Clone, Copy, Debug, PartialEq, Eq, Structural)]
pub enum Associativity {
    Left,
    Right,
    No,
}

/// Precedence of an operator character, 0 for anything else.
pub open spec fn prec_of(op: u8) -> i32 {
    if op == 43 || op == 45 {
        1  // '+' '-'
    } else if op == 42 || op == 37 || op == 47 {
        2  // '*' '%' '/'
    } else if op == 94 {
        3  // '^'
    } else if op == 40 || op == 41 {
        4  // '(' ')'
    } else {
        0
    }
}

/// Associativity of an operator character: left for the operators and the
/// parentheses, none for anything else.
pub open spec fn assoc_of(op: u8) -> Associativity {
    if op == 43 || op == 45 || op == 42 || op == 47 || op == 37 || op == 94 || op == 40 || op == 41 {
        Associativity::Left
    } else {
        Associativity::No
    }
}

/// The binary operators of the calculator: `+ * % - / ^`.
pub open spec fn is_operator(c: u8) -> bool {
    c == 43 || c == 42 || c == 37 || c == 45 || c == 47 || c == 94
}

/// An upper-case letter `A`..`Z`, the name of a stored variable.
pub open spec fn is_upper_letter(c: u8) -> bool {
    65 <= c <= 90
}

/// Precedence of one operator.
pub fn get_prec(op: u8) -> (p: i32)
    ensures
        p == prec_of(op),
{
    match op {
        43 => 1,  // +
        45 => 1,
        42 => 2,
        37 => 2,
        47 => 2,
        94 => 3,
        40 => 4,
        41 => 4,
        _ => 0,
    }
}

/// Associativity of one operator.
pub fn get_associativity(op: u8) -> (a: Associativity)
    ensures
        a == assoc_of(op),
{
    match op {
        43 => Associativity::Left,  // +
        45 => Associativity::Left,
        42 => Associativity::Left,
        47 => Associativity::Left,
        37 => Associativity::Left,
        94 => Associativity::Left,
        40 => Associativity::Left,
        41 => Associativity::Left,
        _ => Associativity::No,
    }
}

/// Whether a character is one of the binary operators.
pub fn is_oper(c: char) -> (b: bool)
    ensures
        b == (c == '+' || c == '*' || c == '%' || c == '-' || c == '/' || c == '^'),
{
    c == '+' || c == '*' || c == '%' || c == '-' || c == '/' || c == '^'
}

/// Whether a byte is a variable letter `A`..`Z`.
pub fn is_letter(c: u8) -> (b: bool)
    ensures
        b == is_upper_letter(c),
{
    c >= 65 && c <= 90
}

/// One digit read into a number of the expression.  A `divisor` of 0 marks
/// a digit before the decimal point (the value becomes `value * 10 + digit`);
/// otherwise the digit stands after the point and adds `digit / divisor`.
#[derive(Clone, Copy, Debug, PartialEq, Eq, Structural)]
pub struct DigitStep {
    pub digit: u8,
    pub divisor: u32,
}

/// A number of the expression as it was read: an optional starting value
/// (a stored variable, 0..=25 for `A`..`Z` and 26 for `ANS`), the digits
/// that followed it, and whether a leading unary minus applies.
#[derive(Debug, PartialEq, Eq)]
pub struct NumLit {
    pub negative: bool,
    pub var: Option<u8>,
    pub steps: Vec<DigitStep>,
}

/// The mathematical view of a [`NumLit`].
pub struct NumLitView {
    pub negative: bool,
    pub var: Option<u8>,
    pub steps: Seq<DigitStep>,
}

impl View for NumLit {
    type V = NumLitView;

    open spec fn view(&self) -> NumLitView {
        NumLitView { negative: self.negative, var: self.var, steps: self.steps@ }
    }
}

/// One item of the postfix form of an expression.
#[derive(Debug, PartialEq, Eq)]
pub enum Oper {
    Number(NumLit),
    Operator(u8),
    Error,
}

/// The mathematical view of an [`Oper`].
pub enum OperView {
    Number(NumLitView),
    Operator(u8),
    Error,
}

impl View for Oper {
    type V = OperView;

    open spec fn view(&self) -> OperView {
        match self {
            Oper::Number(n) => OperView::Number(n@),
            Oper::Operator(o) => OperView::Operator(*o),
            Oper::Error => OperView::Error,
        }
    }
}

/// The view of a sequence of items.
pub open spec fn opers_view(v: Seq<Oper>) -> Seq<OperView> {
    v.map_values(|o: Oper| o@)
}

/// Size of the key buffer: the longest expression that can be typed.
pub const KEY_BUFFER_SIZE: usize = 256;

/// The keys typed since the last evaluation.
pub struct KeyBuffer {
    keys: Vec<u8>,
    len: usize,
}

impl KeyBuffer {
    /// The buffer holds 256 bytes, of which the first `len` are the expression.
    pub closed spec fn wf(self) -> bool {
        self.keys.len() == KEY_BUFFER_SIZE && self.len <= KEY_BUFFER_SIZE
    }

    /// The whole buffer, including bytes past the end of the expression.
    pub closed spec fn keys_view(self) -> Seq<u8> {
        self.keys@
    }

    /// Number of keys in the expression.
    pub closed spec fn len_view(self) -> nat {
        self.len as nat
    }

    /// An empty buffer, all zero.
    pub fn new() -> (b: KeyBuffer)
        ensures
            b.keys_view() == Seq::new(KEY_BUFFER_SIZE as nat, |i: int| 0u8),
            b.len_view() == 0,
            b.wf(),
    {
        let mut keys: Vec<u8> = Vec::new();
        while keys.len() < KEY_BUFFER_SIZE
            invariant
                keys.len() <= KEY_BUFFER_SIZE,
                forall|i: int| 0 <= i < keys.len() ==> keys@[i] == 0u8,
            decreases KEY_BUFFER_SIZE - keys.len(),
        {
            keys.push(0);
        }
        let b = KeyBuffer { keys, len: 0 };
        assert(b.keys_view() =~= Seq::new(KEY_BUFFER_SIZE as nat, |i: int| 0u8));
        b
    }

    /// The whole buffer.
    pub fn keys(&self) -> (k: &Vec<u8>)
        requires
            self.wf(),
        ensures
            k@ == self.keys_view(),
            k.len() == KEY_BUFFER_SIZE,
    {
        &self.keys
    }

    /// Number of keys in the expression.
    pub fn len(&self) -> (l: usize)
        requires
            self.wf(),
        ensures
            l == self.len_view(),
            l <= KEY_BUFFER_SIZE,
    {
        self.len
    }
}

/// What the screen and the calculator do for one key.
#[derive(Clone, Copy, Debug, PartialEq, Eq, Structural)]
pub struct KeyAction {
    /// The input screen is cleared and the prompt written first.
    pub clear_input: bool,
    /// The key is echoed on the input screen.
    pub echo: bool,
    /// The expression of this length (the first keys of the buffer) is evaluated.
    pub evaluate: Option<usize>,
}

/// One key on the buffer `keys` holding an expression of `len` keys: the new
/// buffer and length, and what the screen and the calculator do.  Enter
/// ends the expression (it is evaluated, and the buffer starts over);
/// backspace removes the last key; keys past a full buffer are ignored.
pub open spec fn add_key_spec(keys: Seq<u8>, len: nat, key: u8) -> (Seq<u8>, nat, KeyAction) {
    let a = KeyAction {
        clear_input: len == 0,
        echo: key != 10 && len < KEY_BUFFER_SIZE,
        evaluate: if key == 10 {
            Some(len as usize)
        } else {
            None
        },
    };
    if key == 10 {
        (keys, 0, a)
    } else if len >= KEY_BUFFER_SIZE {
        (keys, len, a)
    } else if key == 8 {
        (
            keys,
            if len > 0 {
                (len - 1) as nat
            } else {
                0
            },
            a,
        )
    } else {
        (keys.update(len as int, key), len + 1, a)
    }
}

/// Adds one key to the expression.
pub fn add_key(buf: &mut KeyBuffer, key: u8) -> (a: KeyAction)
    requires
        old(buf).wf(),
    ensures
        final(buf).wf(),
        (final(buf).keys_view(), final(buf).len_view(), a) == add_key_spec(
            old(buf).keys_view(),
            old(buf).len_view(),
            key,
        ),
{
    let clear_input = buf.len == 0;
    if key != 10 {
        let echo = buf.len < KEY_BUFFER_SIZE;
        if buf.len < KEY_BUFFER_SIZE {
            if key == 8 {
                if buf.len > 0 {
                    buf.len = buf.len - 1;
                }
            } else {
                let l = buf.len;
                buf.keys.set(l, key);
                buf.len = l + 1;
            }
        }
        KeyAction { clear_input, echo, evaluate: None }
    } else {
        let old_len = buf.len;
        buf.len = 0;
        KeyAction { clear_input, echo: false, evaluate: Some(old_len) }
    }
}

/// The buffer after the keys `ks`, one after the other.
pub open spec fn type_keys(keys: Seq<u8>, len: nat, ks: Seq<u8>) -> (Seq<u8>, nat)
    decreases ks.len(),
{
    if ks.len() == 0 {
        (keys, len)
    } else {
        let (k1, l1) = type_keys(keys, len, ks.drop_last());
        let r = add_key_spec(k1, l1, ks.last());
        (r.0, r.1)
    }
}

/// Keys typed into an empty buffer, none of them Enter or backspace and no
/// more than it holds, are what Enter then hands to evaluation.
pub proof fn lemma_typed_keys_evaluated(keys: Seq<u8>, ks: Seq<u8>)
    requires
        keys.len() == KEY_BUFFER_SIZE,
        ks.len() <= KEY_BUFFER_SIZE,
        forall|i: int| 0 <= i < ks.len() ==> ks[i] != 10 && ks[i] != 8,
    ensures
        ({
            let (k, l) = type_keys(keys, 0, ks);
            &&& l == ks.len()
            &&& k.len() == KEY_BUFFER_SIZE
            &&& k.take(l as int) == ks
            &&& add_key_spec(k, l, 10).2.evaluate == Some(ks.len() as usize)
        }),
    decreases ks.len(),
{
    if ks.len() > 0 {
        let pre = ks.drop_last();
        lemma_typed_keys_evaluated(keys, pre);
        let (k1, l1) = type_keys(keys, 0, pre);
        let (k, l) = type_keys(keys, 0, ks);
        assert(k == k1.update(l1 as int, ks.last()));
        assert(k.take(l as int) =~= ks) by {
            assert forall|i: int| 0 <= i < l implies k.take(l as int)[i] == ks[i] by {
                if i < l1 {
                    assert(k1.take(l1 as int)[i] == pre[i]);
                }
            }
        }
    }
}

/// Backspace right after a key takes the expression back to what it was
/// (unless that key filled the buffer: then keys are ignored, backspace too).
pub proof fn lemma_backspace_undoes_key(keys: Seq<u8>, len: nat, key: u8)
    requires
        keys.len() == KEY_BUFFER_SIZE,
        len + 1 < KEY_BUFFER_SIZE,
        key != 10,
        key != 8,
    ensures
        ({
            let (k1, l1, _a1) = add_key_spec(keys, len, key);
            let (k2, l2, _a2) = add_key_spec(k1, l1, 8);
            l2 == len && k2.take(len as int) == keys.take(len as int)
        }),
{
    let (k1, l1, _a1) = add_key_spec(keys, len, key);
    assert(k1.take(len as int) =~= keys.take(len as int));
}

/// What the evaluator does with the next item of the postfix form.
#[derive(Clone, Copy, Debug, PartialEq, Eq, Structural)]
pub enum EvalAction {
    /// Push the number's value.
    Push,
    /// Pop two values, apply the operator, push the result.
    Apply(u8),
    /// The expression is invalid.
    Reject,
}

/// The arithmetic operators that the evaluator knows.
pub open spec fn is_arith_op(o: u8) -> bool {
    o == 43 || o == 47 || o == 45 || o == 42 || o == 37 || o == 94
}

/// The evaluator's decision for item `tok` with `depth` values on its stack:
/// a number is pushed; an operator needs two values and must be one of
/// `+ / - * % ^`; anything else makes the expression invalid.
pub open spec fn eval_action_spec(depth: nat, tok: OperView) -> EvalAction {
    match tok {
        OperView::Number(_) => EvalAction::Push,
        OperView::Operator(o) => if depth >= 2 && is_arith_op(o) {
            EvalAction::Apply(o)
        } else {
            EvalAction::Reject
        },
        OperView::Error => EvalAction::Reject,
    }
}

/// The number of values on the evaluator's stack after the items `items`,
/// taken in order from an empty stack; `None` when it rejects one.
pub open spec fn postfix_depth(items: Seq<OperView>) -> Option<int>
    decreases items.len(),
{
    if items.len() == 0 {
        Some(0)
    } else {
        match postfix_depth(items.drop_last()) {
            None => None,
            Some(d) => match eval_action_spec(d as nat, items.last()) {
                EvalAction::Push => Some(d + 1),
                EvalAction::Apply(_) => Some(d - 1),
                EvalAction::Reject => None,
            },
        }
    }
}

/// Decides what the evaluator does with the next item.
pub fn eval_action(depth: usize, tok: &Oper) -> (a: EvalAction)
    ensures
        a == eval_action_spec(depth as nat, tok@),
{
    match tok {
        Oper::Number(_) => EvalAction::Push,
        Oper::Operator(o) => {
            let o = *o;
            if depth >= 2 && (o == 43 || o == 47 || o == 45 || o == 42 || o == 37 || o == 94) {
                EvalAction::Apply(o)
            } else {
                EvalAction::Reject
            }
        },
        Oper::Error => EvalAction::Reject,
    }
}

/// The name under which a result is shown: `ANS` for slot 26, else the letter.
pub open spec fn answer_label_spec(slot: int) -> Seq<u8> {
    if slot == 26 {
        seq![65u8, 78u8, 83u8]
    } else {
        seq![(65 + slot) as u8]
    }
}

/// The name under which a result stored in `slot` is shown.
pub fn answer_label(slot: u8) -> (l: Vec<u8>)
    requires
        slot <= 26,
    ensures
        l@ == answer_label_spec(slot as int),
{
    let mut l = Vec::new();
    if slot == 26 {
        l.push(65);
        l.push(78);
        l.push(83);
    } else {
        l.push(65 + slot);
    }
    assert(l@ =~= answer_label_spec(slot as int));
    l
}

} // verus!

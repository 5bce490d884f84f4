//! The FAL line parser: one source line in, at most one instruction out.
use vstd::prelude::*;
use crate::text::{
    decimal, digit_char, find_from, lemma_find_from_before, lemma_find_from_bounds, is_ws, lemma_find_from_first, lemma_find_from_none,
    lemma_strip_end_append, lemma_strip_end_is_prefix, lemma_strip_start_append,
    lemma_strip_start_is_suffix, occurs_at,
    in_class, lemma_strip_start_head, all_digits, bounded_digits, digit_value, digits_value, is_digit, numeric, strip_end,
    strip_start, byte_len, byte_len_prefix, char_at_byte, char_at_byte_exec, chars_of, contains, contains_str,
    eq_str, find, find_str, join, join_words, lemma_find_bounds, lemma_rfind_bounds,
    lemma_strip_len, lowercase_of, parse_i64, parse_i64_chars, parse_usize, parse_usize_chars,
    rfind_char, rfind_char_before, slice_chars, starts_with, starts_with_str, string_from_chars,
    strip, strip_chars, to_lowercase, trim, trim_chars, views, width, words, words_of, CharClass,
};

verus! {

// ---------------------------------------------------------------------------
// Instructions
// ---------------------------------------------------------------------------

/// A value an instruction reads: a tray, or a literal.
#[derive(Debug, PartialEq, Clone)]
pub enum Operand {
    Tray(usize),
    Number(i64),
    Char(char),
    StringLit(String),
}

/// The comparison of an inline conditional.
#[derive(Debug, PartialEq, Eq, Clone, Copy)]
pub enum ConditionOp {
    Equal,
    NotEqual,
    Greater,
    Less,
    GreaterEqual,
    LessEqual,
}

/// A storeroom bin: a fixed number, or the value held in a tray.
#[derive(Debug, PartialEq, Eq, Clone, Copy)]
pub enum StoreroomOffset {
    Fixed(usize),
    /// The index of the tray whose value names the bin.
    Dynamic(usize),
}

/// One FAL instruction. Tray numbers are zero-based (`tray1` is 0).
#[derive(Debug, PartialEq)]
pub enum Instruction {
    Workstation { name: String },
    EndWorkstation,
    Fill { val: i64, tray: usize },
    AssignChar { val: char, tray: usize },
    AssignString { text: String, tray: usize },
    Move { src_tray: usize, dst_tray: usize },
    Clear { tray: usize },
    Add { src: Operand, dst_tray: usize },
    Sub { src: Operand, dst_tray: usize },
    Multiply { src: Operand, dst_tray: usize },
    Divide { src: Operand, dst_tray: usize },
    Modulo { src: Operand, dst_tray: usize },
    Compare { tray_a: usize, val_b: Operand },
    Jump { target: String },
    JumpIfEqual { target: String },
    JumpIfNotEqual { target: String },
    JumpIfGreater { target: String },
    JumpIfLess { target: String },
    InlineIf { tray: usize, op: ConditionOp, target_val: Operand, then_inst: Box<Instruction> },
    Store { tray: usize, offset: StoreroomOffset },
    Load { offset: StoreroomOffset, tray: usize },
    SayLiteral { text: String },
    SayTray { tray: usize },
    SayNumber { tray: usize },
    AskNumber { tray: usize },
    AskChar { tray: usize },
    AskString { tray: usize },
    Random { max: Operand, tray: usize },
    Call { workstation: String },
    Return { tray: Option<usize> },
    CallSupervisor { action: String, tray: Option<usize> },
}

/// The mathematical value of an [`Operand`]: strings become character sequences.
pub enum OperandModel {
    Tray(usize),
    Number(i64),
    Char(char),
    StringLit(Seq<char>),
}

/// The mathematical value of an [`Instruction`].
pub enum InstrModel {
    Workstation { name: Seq<char> },
    EndWorkstation,
    Fill { val: i64, tray: usize },
    AssignChar { ch: char, tray: usize },
    AssignString { text: Seq<char>, tray: usize },
    Move { src_tray: usize, dst_tray: usize },
    Clear { tray: usize },
    Add { src: OperandModel, dst_tray: usize },
    Sub { src: OperandModel, dst_tray: usize },
    Multiply { src: OperandModel, dst_tray: usize },
    Divide { src: OperandModel, dst_tray: usize },
    Modulo { src: OperandModel, dst_tray: usize },
    Compare { tray_a: usize, val_b: OperandModel },
    Jump { target: Seq<char> },
    JumpIfEqual { target: Seq<char> },
    JumpIfNotEqual { target: Seq<char> },
    JumpIfGreater { target: Seq<char> },
    JumpIfLess { target: Seq<char> },
    InlineIf {
        tray: usize,
        op: ConditionOp,
        target_val: OperandModel,
        then_inst: Box<InstrModel>,
    },
    Store { tray: usize, offset: StoreroomOffset },
    Load { offset: StoreroomOffset, tray: usize },
    SayLiteral { text: Seq<char> },
    SayTray { tray: usize },
    SayNumber { tray: usize },
    AskNumber { tray: usize },
    AskChar { tray: usize },
    AskString { tray: usize },
    Random { max: OperandModel, tray: usize },
    Call { workstation: Seq<char> },
    Return { tray: Option<usize> },
    CallSupervisor { action: Seq<char>, tray: Option<usize> },
}

impl View for Operand {
    type V = OperandModel;

    open spec fn view(&self) -> OperandModel {
        match self {
            Operand::Tray(t) => OperandModel::Tray(*t),
            Operand::Number(n) => OperandModel::Number(*n),
            Operand::Char(c) => OperandModel::Char(*c),
            Operand::StringLit(s) => OperandModel::StringLit(s@),
        }
    }
}

/// The model of an instruction.
pub open spec fn instr_model(i: Instruction) -> InstrModel
    decreases i,
{
    match i {
        Instruction::Workstation { name } => InstrModel::Workstation { name: name@ },
        Instruction::EndWorkstation => InstrModel::EndWorkstation,
        Instruction::Fill { val, tray } => InstrModel::Fill { val, tray },
        Instruction::AssignChar { val, tray } => InstrModel::AssignChar { ch: val, tray },
        Instruction::AssignString { text, tray } => InstrModel::AssignString { text: text@, tray },
        Instruction::Move { src_tray, dst_tray } => InstrModel::Move { src_tray, dst_tray },
        Instruction::Clear { tray } => InstrModel::Clear { tray },
        Instruction::Add { src, dst_tray } => InstrModel::Add { src: src@, dst_tray },
        Instruction::Sub { src, dst_tray } => InstrModel::Sub { src: src@, dst_tray },
        Instruction::Multiply { src, dst_tray } => InstrModel::Multiply { src: src@, dst_tray },
        Instruction::Divide { src, dst_tray } => InstrModel::Divide { src: src@, dst_tray },
        Instruction::Modulo { src, dst_tray } => InstrModel::Modulo { src: src@, dst_tray },
        Instruction::Compare { tray_a, val_b } => InstrModel::Compare { tray_a, val_b: val_b@ },
        Instruction::Jump { target } => InstrModel::Jump { target: target@ },
        Instruction::JumpIfEqual { target } => InstrModel::JumpIfEqual { target: target@ },
        Instruction::JumpIfNotEqual { target } => InstrModel::JumpIfNotEqual { target: target@ },
        Instruction::JumpIfGreater { target } => InstrModel::JumpIfGreater { target: target@ },
        Instruction::JumpIfLess { target } => InstrModel::JumpIfLess { target: target@ },
        Instruction::InlineIf { tray, op, target_val, then_inst } => InstrModel::InlineIf {
            tray,
            op,
            target_val: target_val@,
            then_inst: Box::new(instr_model(*then_inst)),
        },
        Instruction::Store { tray, offset } => InstrModel::Store { tray, offset },
        Instruction::Load { offset, tray } => InstrModel::Load { offset, tray },
        Instruction::SayLiteral { text } => InstrModel::SayLiteral { text: text@ },
        Instruction::SayTray { tray } => InstrModel::SayTray { tray },
        Instruction::SayNumber { tray } => InstrModel::SayNumber { tray },
        Instruction::AskNumber { tray } => InstrModel::AskNumber { tray },
        Instruction::AskChar { tray } => InstrModel::AskChar { tray },
        Instruction::AskString { tray } => InstrModel::AskString { tray },
        Instruction::Random { max, tray } => InstrModel::Random { max: max@, tray },
        Instruction::Call { workstation } => InstrModel::Call { workstation: workstation@ },
        Instruction::Return { tray } => InstrModel::Return { tray },
        Instruction::CallSupervisor { action, tray } => InstrModel::CallSupervisor {
            action: action@,
            tray,
        },
    }
}

impl View for Instruction {
    type V = InstrModel;

    open spec fn view(&self) -> InstrModel {
        instr_model(*self)
    }
}

impl Operand {
    /// A copy of this operand.
    pub fn duplicate(&self) -> (r: Operand)
        ensures
            r@ == self@,
    {
        match self {
            Operand::Tray(t) => Operand::Tray(*t),
            Operand::Number(n) => Operand::Number(*n),
            Operand::Char(c) => Operand::Char(*c),
            Operand::StringLit(s) => Operand::StringLit(s.clone()),
        }
    }
}

impl Clone for Instruction {
    fn clone(&self) -> (r: Instruction)
        ensures
            r@ == self@,
        decreases self,
    {
        match self {
            Instruction::Workstation { name } => Instruction::Workstation { name: name.clone() },
            Instruction::EndWorkstation => Instruction::EndWorkstation,
            Instruction::Fill { val, tray } => Instruction::Fill { val: *val, tray: *tray },
            Instruction::AssignChar { val, tray } => Instruction::AssignChar { val: *val, tray: *tray },
            Instruction::AssignString { text, tray } => Instruction::AssignString {
                text: text.clone(),
                tray: *tray,
            },
            Instruction::Move { src_tray, dst_tray } => Instruction::Move {
                src_tray: *src_tray,
                dst_tray: *dst_tray,
            },
            Instruction::Clear { tray } => Instruction::Clear { tray: *tray },
            Instruction::Add { src, dst_tray } => Instruction::Add {
                src: src.duplicate(),
                dst_tray: *dst_tray,
            },
            Instruction::Sub { src, dst_tray } => Instruction::Sub {
                src: src.duplicate(),
                dst_tray: *dst_tray,
            },
            Instruction::Multiply { src, dst_tray } => Instruction::Multiply {
                src: src.duplicate(),
                dst_tray: *dst_tray,
            },
            Instruction::Divide { src, dst_tray } => Instruction::Divide {
                src: src.duplicate(),
                dst_tray: *dst_tray,
            },
            Instruction::Modulo { src, dst_tray } => Instruction::Modulo {
                src: src.duplicate(),
                dst_tray: *dst_tray,
            },
            Instruction::Compare { tray_a, val_b } => Instruction::Compare {
                tray_a: *tray_a,
                val_b: val_b.duplicate(),
            },
            Instruction::Jump { target } => Instruction::Jump { target: target.clone() },
            Instruction::JumpIfEqual { target } => Instruction::JumpIfEqual { target: target.clone() },
            Instruction::JumpIfNotEqual { target } => Instruction::JumpIfNotEqual {
                target: target.clone(),
            },
            Instruction::JumpIfGreater { target } => Instruction::JumpIfGreater {
                target: target.clone(),
            },
            Instruction::JumpIfLess { target } => Instruction::JumpIfLess { target: target.clone() },
            Instruction::InlineIf { tray, op, target_val, then_inst } => {
                let inner: &Instruction = then_inst;
                Instruction::InlineIf {
                    tray: *tray,
                    op: *op,
                    target_val: target_val.duplicate(),
                    then_inst: Box::new(inner.clone()),
                }
            },
            Instruction::Store { tray, offset } => Instruction::Store {
                tray: *tray,
                offset: *offset,
            },
            Instruction::Load { offset, tray } => Instruction::Load {
                offset: *offset,
                tray: *tray,
            },
            Instruction::SayLiteral { text } => Instruction::SayLiteral { text: text.clone() },
            Instruction::SayTray { tray } => Instruction::SayTray { tray: *tray },
            Instruction::SayNumber { tray } => Instruction::SayNumber { tray: *tray },
            Instruction::AskNumber { tray } => Instruction::AskNumber { tray: *tray },
            Instruction::AskChar { tray } => Instruction::AskChar { tray: *tray },
            Instruction::AskString { tray } => Instruction::AskString { tray: *tray },
            Instruction::Random { max, tray } => Instruction::Random {
                max: max.duplicate(),
                tray: *tray,
            },
            Instruction::Call { workstation } => Instruction::Call {
                workstation: workstation.clone(),
            },
            Instruction::Return { tray } => Instruction::Return { tray: *tray },
            Instruction::CallSupervisor { action, tray } => Instruction::CallSupervisor {
                action: action.clone(),
                tray: *tray,
            },
        }
    }
}

/// The model of an optional instruction.
pub open spec fn opt_model(r: Option<Instruction>) -> Option<InstrModel> {
    match r {
        Some(i) => Some(i@),
        None => None,
    }
}

// ---------------------------------------------------------------------------
// What a token means
// ---------------------------------------------------------------------------

/// The zero-based tray that a token such as `tray4` or `tray4:` names: the
/// number left after stripping non-numeric characters from both ends, minus one;
/// 0 when no number can be read.
pub open spec fn tray_index_of(token: Seq<char>) -> usize {
    match parse_usize(strip(token, CharClass::NonNumeric)) {
        Some(n) => if n == 0 {
            0
        } else {
            (n - 1) as usize
        },
        None => 0,
    }
}

/// A workstation name with white space and the delimiters `:"',;` removed from its ends.
pub open spec fn sanitized(s: Seq<char>) -> Seq<char> {
    trim(strip(trim(s), CharClass::NameDelimiter))
}

/// Whether `s` has at least `min` characters and starts and ends with `q`.
pub open spec fn is_quoted(s: Seq<char>, q: char, min: nat) -> bool {
    s.len() >= min && s.len() > 0 && s[0] == q && s.last() == q
}

/// The characters between the first and the last character of `s`.
pub open spec fn unquoted(s: Seq<char>) -> Seq<char> {
    s.subrange(1, s.len() - 1)
}

/// Whether a token names a tray (it starts with `tray`, in any case).
pub open spec fn names_tray(s: Seq<char>) -> bool {
    starts_with(lowercase_of(s), "tray"@)
}

/// What an operand token means.
pub open spec fn operand_of(token: Seq<char>) -> OperandModel {
    let t = trim(token);
    if names_tray(t) {
        OperandModel::Tray(tray_index_of(t))
    } else if is_quoted(t, '\'', 3) {
        OperandModel::Char(t[1])
    } else if is_quoted(t, '"', 2) {
        OperandModel::StringLit(unquoted(t))
    } else {
        OperandModel::Number(
            match parse_i64(t) {
                Some(v) => v,
                None => 0,
            },
        )
    }
}

/// What a storeroom reference such as `storeroom[3]` or `storeroom[tray2]` means.
pub open spec fn offset_of(s: Seq<char>) -> StoreroomOffset {
    let inner = match find(s, "["@) {
        Some(o) => match find(s, "]"@) {
            Some(c) => if c > o {
                s.subrange(o + 1, c)
            } else {
                s
            },
            None => s,
        },
        None => s,
    };
    let t = trim(inner);
    if names_tray(t) {
        StoreroomOffset::Dynamic(tray_index_of(t))
    } else {
        StoreroomOffset::Fixed(
            match parse_usize(strip(t, CharClass::NonNumeric)) {
                Some(v) => v,
                None => 0,
            },
        )
    }
}

/// A condition `trayN <sym> value`, read with the comparison symbol `sym`.
pub open spec fn condition_with(cond: Seq<char>, sym: Seq<char>, op: ConditionOp) -> Option<
    (usize, ConditionOp, OperandModel),
> {
    match find(cond, sym) {
        Some(idx) => {
            let left = trim(cond.subrange(0, idx));
            let right = trim(cond.subrange(idx + sym.len(), cond.len() as int));
            if names_tray(left) {
                Some((tray_index_of(left), op, operand_of(right)))
            } else {
                None
            }
        },
        None => None,
    }
}

/// The condition of an inline `if`: the comparison symbols are tried in the order
/// `==`, `!=`, `>=`, `<=`, `>`, `<`.
pub open spec fn condition_of(cond: Seq<char>) -> Option<(usize, ConditionOp, OperandModel)> {
    match condition_with(cond, "=="@, ConditionOp::Equal) {
        Some(r) => Some(r),
        None => match condition_with(cond, "!="@, ConditionOp::NotEqual) {
            Some(r) => Some(r),
            None => match condition_with(cond, ">="@, ConditionOp::GreaterEqual) {
                Some(r) => Some(r),
                None => match condition_with(cond, "<="@, ConditionOp::LessEqual) {
                    Some(r) => Some(r),
                    None => match condition_with(cond, ">"@, ConditionOp::Greater) {
                        Some(r) => Some(r),
                        None => condition_with(cond, "<"@, ConditionOp::Less),
                    },
                },
            },
        },
    }
}


// ---------------------------------------------------------------------------
// Tray names
// ---------------------------------------------------------------------------

proof fn lemma_digit_char(d: int)
    requires
        0 <= d < 10,
    ensures
        is_digit(digit_char(d)),
        digit_value(digit_char(d)) == d,
        (digit_char(d) as u32) < 128,
{
}

/// The numeral of `n` is a run of digits whose value is `n`.
pub proof fn lemma_decimal(n: nat)
    ensures
        decimal(n).len() >= 1,
        all_digits(decimal(n)),
        digits_value(decimal(n)) == n,
        decimal(n)[0] != '+',
    decreases n,
{
    if n < 10 {
        lemma_digit_char(n as int);
        assert(decimal(n).drop_last() =~= Seq::<char>::empty());
        assert(digits_value(Seq::<char>::empty()) == 0);
    } else {
        lemma_decimal(n / 10);
        lemma_digit_char((n % 10) as int);
        assert(decimal(n).drop_last() =~= decimal(n / 10));
        assert(n == (n / 10) * 10 + n % 10);
        assert forall|i: int| 0 <= i < decimal(n).len() implies is_digit(#[trigger] decimal(n)[i]) by {
            if i < decimal(n).len() - 1 {
                assert(decimal(n)[i] == decimal(n / 10)[i]);
            }
        }
    }
}

proof fn lemma_strip_digits(d: Seq<char>)
    requires
        d.len() >= 1,
        all_digits(d),
    ensures
        strip_start(d, CharClass::NonNumeric) == d,
        strip_end(d, CharClass::NonNumeric) == d,
{
    assert(is_digit(d[0]));
    assert(is_digit(d.last()));
    assert(('0' as u32) <= (d[0] as u32) && (d[0] as u32) <= ('9' as u32));
    assert(('0' as u32) <= (d.last() as u32) && (d.last() as u32) <= ('9' as u32));
    assert(numeric(d[0]));
    assert(numeric(d.last()));
}

/// A tray is named `tray1`, `tray2`, ...: the token `tray` followed by the numeral
/// of `n >= 1` names the zero-based tray `n - 1`.
pub proof fn lemma_tray_name(n: usize)
    requires
        n >= 1,
    ensures
        tray_index_of(seq!['t', 'r', 'a', 'y'] + decimal(n as nat)) == n - 1,
{
    let d = decimal(n as nat);
    lemma_decimal(n as nat);
    let t = seq!['t', 'r', 'a', 'y'] + d;
    assert(t.drop_first() =~= seq!['r', 'a', 'y'] + d);
    assert((seq!['r', 'a', 'y'] + d).drop_first() =~= seq!['a', 'y'] + d);
    assert((seq!['a', 'y'] + d).drop_first() =~= seq!['y'] + d);
    assert((seq!['y'] + d).drop_first() =~= d);
    assert(!numeric('t') && !numeric('r') && !numeric('a') && !numeric('y'));
    lemma_strip_digits(d);
    assert(strip_start(seq!['y'] + d, CharClass::NonNumeric) == d);
    assert(strip_start(seq!['a', 'y'] + d, CharClass::NonNumeric) == d);
    assert(strip_start(seq!['r', 'a', 'y'] + d, CharClass::NonNumeric) == d);
    assert(strip_start(t, CharClass::NonNumeric) == d);
    assert(strip(t, CharClass::NonNumeric) == d);
    assert(bounded_digits(d, usize::MAX as int) == Some(n as int));
}

// ---------------------------------------------------------------------------
// What a line means
// ---------------------------------------------------------------------------

/// A trimmed line without its comment (from the first `//`, or else from the first `#`).
pub open spec fn without_comment(t: Seq<char>) -> Seq<char> {
    match find(t, "//"@) {
        Some(i) => trim(t.subrange(0, i)),
        None => match find(t, "#"@) {
            Some(i) => trim(t.subrange(0, i)),
            None => t,
        },
    }
}

/// A direct assignment `trayN = value`, in a line with `=` and none of `==`, `!=`,
/// `<=`, `>=`.
pub open spec fn assignment_of(code: Seq<char>) -> Option<InstrModel> {
    if contains(code, "="@) && !contains(code, "=="@) && !contains(code, "!="@) && !contains(
        code,
        "<="@,
    ) && !contains(code, ">="@) {
        match find(code, "="@) {
            Some(e) => {
                let target = trim(code.subrange(0, e));
                let v = trim(code.subrange(e + 1, code.len() as int));
                if names_tray(target) {
                    value_assignment(v, tray_index_of(target))
                } else {
                    None
                }
            },
            None => None,
        }
    } else {
        None
    }
}

/// What `trayN = v` assigns: a quoted text, a quoted character, or a number.
pub open spec fn value_assignment(v: Seq<char>, tray: usize) -> Option<InstrModel> {
    if is_quoted(v, '"', 2) {
        Some(InstrModel::AssignString { text: unquoted(v), tray })
    } else if is_quoted(v, '\'', 3) {
        Some(InstrModel::AssignChar { ch: v[1], tray })
    } else {
        match parse_i64(v) {
            Some(val) => Some(InstrModel::Fill { val, tray }),
            None => None,
        }
    }
}

/// The last white-space separated word of `code`, or nothing.
pub open spec fn last_word(code: Seq<char>) -> Seq<char> {
    let w = words(code);
    if w.len() > 0 {
        w.last()
    } else {
        seq![]
    }
}

/// The output and input keywords that take their tray from the last word of the line.
pub open spec fn io_of(code: Seq<char>, low: Seq<char>) -> Option<InstrModel> {
    let last = last_word(code);
    if !names_tray(last) {
        None
    } else {
        let tray = tray_index_of(last);
        if starts_with(low, "say_number "@) || starts_with(low, "say number "@) || starts_with(
            low,
            "print_number "@,
        ) || starts_with(low, "show_number "@) {
            Some(InstrModel::SayNumber { tray })
        } else if starts_with(low, "ask_string "@) || starts_with(low, "ask_text "@) || starts_with(
            low,
            "ask text "@,
        ) || starts_with(low, "input_string "@) || starts_with(low, "input_text "@) {
            Some(InstrModel::AskString { tray })
        } else if starts_with(low, "ask_char "@) || starts_with(low, "ask char "@) || starts_with(
            low,
            "input_char "@,
        ) {
            Some(InstrModel::AskChar { tray })
        } else if starts_with(low, "ask "@) || starts_with(low, "ask_number "@) || starts_with(
            low,
            "ask number "@,
        ) || starts_with(low, "input "@) || starts_with(low, "listen "@) {
            Some(InstrModel::AskNumber { tray })
        } else {
            None
        }
    }
}

/// `move`/`copy` with `to`: a quoted text, a tray or a number goes into a tray.
pub open spec fn move_of(tk: Seq<Seq<char>>) -> Option<InstrModel> {
    let src = tk[1];
    let dst_tray = tray_index_of(tk[3]);
    let rest = join(tk.subrange(1, tk.len() as int), seq![' ']);
    let quoted = if src.len() > 0 && src[0] == '"' {
        match find(rest, "\""@) {
            Some(first_q) => match rfind_char_before(rest, '"', rest.len() as int) {
                Some(last_q) => if last_q > first_q {
                    Some(InstrModel::AssignString { text: rest.subrange(first_q + 1, last_q), tray: dst_tray })
                } else {
                    None
                },
                None => None,
            },
            None => None,
        }
    } else {
        None
    };
    match quoted {
        Some(i) => Some(i),
        None => if names_tray(src) {
            Some(InstrModel::Move { src_tray: tray_index_of(src), dst_tray })
        } else {
            match parse_i64(src) {
                Some(val) => Some(InstrModel::Fill { val, tray: dst_tray }),
                None => None,
            }
        },
    }
}

/// `random trayN [max|to] value`: the bound defaults to 100.
pub open spec fn random_of(tk: Seq<Seq<char>>) -> InstrModel {
    let n = tk.len();
    let max = if n >= 4 && (lowercase_of(tk[2]) == "max"@ || lowercase_of(tk[2]) == "to"@) {
        operand_of(tk[3])
    } else if n >= 3 {
        operand_of(tk[2])
    } else {
        OperandModel::Number(100)
    };
    InstrModel::Random { max, tray: tray_index_of(tk[1]) }
}

/// `call supervisor <action> [trayN]` and `call <workstation>`.
pub open spec fn call_of(tk: Seq<Seq<char>>) -> InstrModel {
    let n = tk.len();
    let t1 = lowercase_of(tk[1]);
    if t1 == "supervisor"@ || t1 == "call_supervisor"@ {
        InstrModel::CallSupervisor {
            action: if n >= 3 {
                lowercase_of(tk[2])
            } else {
                "default"@
            },
            tray: if n >= 4 {
                Some(tray_index_of(tk[3]))
            } else {
                None
            },
        }
    } else {
        InstrModel::Call { workstation: sanitized(tk.last()) }
    }
}

/// The three-word arithmetic forms: `add X to T`, `sub X from T`,
/// `multiply T by X`, `divide T by X`, `modulo T by X` (also `mod`).
pub open spec fn arithmetic_of(first: Seq<char>, tk: Seq<Seq<char>>) -> Option<InstrModel> {
    let mid = lowercase_of(tk[2]);
    if first == "add"@ && mid == "to"@ {
        Some(InstrModel::Add { src: operand_of(tk[1]), dst_tray: tray_index_of(tk[3]) })
    } else if first == "sub"@ && mid == "from"@ {
        Some(InstrModel::Sub { src: operand_of(tk[1]), dst_tray: tray_index_of(tk[3]) })
    } else if first == "multiply"@ && mid == "by"@ {
        Some(InstrModel::Multiply { src: operand_of(tk[3]), dst_tray: tray_index_of(tk[1]) })
    } else if first == "divide"@ && mid == "by"@ {
        Some(InstrModel::Divide { src: operand_of(tk[3]), dst_tray: tray_index_of(tk[1]) })
    } else if (first == "modulo"@ || first == "mod"@) && mid == "by"@ {
        Some(InstrModel::Modulo { src: operand_of(tk[3]), dst_tray: tray_index_of(tk[1]) })
    } else if first == "compare"@ && mid == "with"@ {
        Some(InstrModel::Compare { tray_a: tray_index_of(tk[1]), val_b: operand_of(tk[3]) })
    } else if (first == "move"@ || first == "copy"@) && mid == "to"@ {
        move_of(tk)
    } else if first == "fill"@ && mid == "into"@ {
        Some(
            InstrModel::Fill {
                val: match parse_i64(tk[1]) {
                    Some(v) => v,
                    None => 0,
                },
                tray: tray_index_of(tk[3]),
            },
        )
    } else {
        None
    }
}

/// The jump keywords; `None` when `first` is none of them.
pub open spec fn jump_of(first: Seq<char>, target: Seq<char>, n: nat) -> Option<InstrModel> {
    if first == "jump"@ && n >= 2 {
        Some(InstrModel::Jump { target })
    } else if first == "jump_if_equal"@ || first == "je"@ {
        Some(InstrModel::JumpIfEqual { target })
    } else if first == "jump_if_not_equal"@ || first == "jne"@ {
        Some(InstrModel::JumpIfNotEqual { target })
    } else if first == "jump_if_greater"@ || first == "jg"@ {
        Some(InstrModel::JumpIfGreater { target })
    } else if first == "jump_if_less"@ || first == "jl"@ {
        Some(InstrModel::JumpIfLess { target })
    } else {
        None
    }
}

/// A line read by its first word.
pub open spec fn keyword_of(code: Seq<char>) -> Option<InstrModel> {
    let tk = words(code);
    let n = tk.len();
    if n == 0 {
        None
    } else {
        let first = lowercase_of(tk[0]);
        if first == "workstation"@ && n >= 2 {
            Some(InstrModel::Workstation { name: sanitized(join(tk.subrange(1, n as int), seq![' '])) })
        } else if first == "end"@ || first == "endworkstation"@ || first == "exit_workstation"@ {
            Some(InstrModel::EndWorkstation)
        } else if n >= 4 && arithmetic_of(first, tk) is Some {
            arithmetic_of(first, tk)
        } else if first == "clear"@ && n >= 2 {
            Some(InstrModel::Clear { tray: tray_index_of(tk[1]) })
        } else if first == "random"@ && n >= 2 {
            Some(random_of(tk))
        } else if jump_of(first, sanitized(tk.last()), n) is Some {
            jump_of(first, sanitized(tk.last()), n)
        } else if first == "store"@ && n >= 3 {
            Some(
                InstrModel::Store {
                    tray: tray_index_of(tk[1]),
                    offset: offset_of(join(tk.subrange(2, n as int), seq![' '])),
                },
            )
        } else if (first == "load"@ || first == "fetch"@) && n >= 3 {
            Some(
                InstrModel::Load {
                    offset: offset_of(join(tk.subrange(1, n - 1), seq![' '])),
                    tray: tray_index_of(tk.last()),
                },
            )
        } else if first == "call"@ && n >= 2 {
            Some(call_of(tk))
        } else if first == "call_supervisor"@ {
            Some(
                InstrModel::CallSupervisor {
                    action: if n >= 2 {
                        lowercase_of(tk[1])
                    } else {
                        "default"@
                    },
                    tray: if n >= 3 {
                        Some(tray_index_of(tk[2]))
                    } else {
                        None
                    },
                },
            )
        } else if first == "return"@ || first == "ret"@ {
            Some(
                InstrModel::Return {
                    tray: if n >= 2 {
                        Some(tray_index_of(tk[1]))
                    } else {
                        None
                    },
                },
            )
        } else {
            None
        }
    }
}

/// What `code` means once the inline-`if` form has been set aside; `None` where
/// slicing after `say ` would panic.
pub open spec fn plain_line_of(code: Seq<char>, low: Seq<char>) -> Option<Option<InstrModel>> {
    match assignment_of(code) {
        Some(i) => Some(Some(i)),
        None => {
            let said: Option<Option<InstrModel>> = if starts_with(low, "say "@) {
                match char_at_byte(code, 4) {
                    None => None,
                    Some(j) => {
                        let rest = trim(code.subrange(j, code.len() as int));
                        if is_quoted(rest, '"', 2) {
                            Some(Some(InstrModel::SayLiteral { text: unquoted(rest) }))
                        } else if names_tray(rest) {
                            Some(Some(InstrModel::SayTray { tray: tray_index_of(rest) }))
                        } else {
                            Some(None)
                        }
                    },
                }
            } else {
                Some(None)
            };
            match said {
                None => None,
                Some(Some(i)) => Some(Some(i)),
                Some(None) => match io_of(code, low) {
                    Some(i) => Some(Some(i)),
                    None => Some(keyword_of(code)),
                },
            }
        },
    }
}

/// What a source line means: `Some(None)` for a line that holds no instruction,
/// `Some(Some(i))` for instruction `i`, and `None` for the lines on which slicing
/// the text at a byte offset panics (an inline `if` whose ` then ` begins before
/// the fourth byte, or an offset that falls inside a character).
pub open spec fn line_meaning(line: Seq<char>) -> Option<Option<InstrModel>>
    decreases line.len(),
{
    let t = trim(line);
    if t.len() == 0 || starts_with(t, "//"@) || starts_with(t, "#"@) {
        Some(None)
    } else {
        let code = without_comment(t);
        if code.len() == 0 {
            Some(None)
        } else {
            let low = lowercase_of(code);
            if starts_with(low, "if "@) && contains(low, " then "@) {
                let k = find(low, " then "@)->0;
                let b = byte_len(low.subrange(0, k));
                let j3 = char_at_byte(code, 3);
                let jt = char_at_byte(code, b);
                let j6 = char_at_byte(code, b + 6);
                if b < 3 || j3 is None || jt is None || j6 is None {
                    None
                } else {
                    let cond = trim(code.subrange(j3->0, jt->0));
                    let then_part = trim(code.subrange(j6->0, code.len() as int));
                    match condition_of(cond) {
                        Some((tray, op, target_val)) => {
                            proof {
                                lemma_line_shrinks(line, b + 6);
                            }
                            match line_meaning(then_part) {
                                None => None,
                                Some(Some(ti)) => Some(
                                    Some(
                                        InstrModel::InlineIf {
                                            tray,
                                            op,
                                            target_val,
                                            then_inst: Box::new(ti),
                                        },
                                    ),
                                ),
                                Some(None) => plain_line_of(code, low),
                            }
                        },
                        None => plain_line_of(code, low),
                    }
                }
            } else {
                plain_line_of(code, low)
            }
        }
    }
}


// ---------------------------------------------------------------------------
// Laws of the line reader
// ---------------------------------------------------------------------------

/// Blank lines and lines that start with `//` or `#` hold no instruction.
pub proof fn lemma_blank_and_comment_lines(line: Seq<char>)
    requires
        trim(line).len() == 0 || starts_with(trim(line), "//"@) || starts_with(trim(line), "#"@),
    ensures
        line_meaning(line) == Some(Option::<InstrModel>::None),
{
}

proof fn lemma_strip_end_idempotent(s: Seq<char>, k: CharClass)
    ensures
        strip_end(strip_end(s, k), k) == strip_end(s, k),
    decreases s.len(),
{
    if s.len() > 0 && in_class(k, s.last()) {
        lemma_strip_end_idempotent(s.drop_last(), k);
    }
}

/// Stripping the end of a sequence that does not start with a character of the
/// class leaves a sequence that does not start with one either.
proof fn lemma_strip_end_keeps_head(s: Seq<char>, k: CharClass)
    requires
        s.len() > 0 ==> !in_class(k, s[0]),
    ensures
        strip_start(strip_end(s, k), k) == strip_end(s, k),
    decreases s.len(),
{
    if s.len() > 0 && in_class(k, s.last()) {
        if s.len() > 1 {
            assert(s.drop_last()[0] == s[0]);
        }
        lemma_strip_end_keeps_head(s.drop_last(), k);
    }
}

/// Stripping twice strips no more than stripping once.
pub proof fn lemma_strip_idempotent(s: Seq<char>, k: CharClass)
    ensures
        strip(strip(s, k), k) == strip(s, k),
{
    let a = strip_start(s, k);
    lemma_strip_start_head(s, k);
    lemma_strip_end_keeps_head(a, k);
    lemma_strip_end_idempotent(a, k);
}

/// A two-character pattern occurs at `j` exactly when its characters stand there.
proof fn lemma_occurs2(s: Seq<char>, a: char, b: char, j: int)
    ensures
        occurs_at(s, seq![a, b], j) <==> (0 <= j && j + 2 <= s.len() && s[j] == a && s[j + 1] == b),
{
    if 0 <= j && j + 2 <= s.len() {
        if s[j] == a && s[j + 1] == b {
            assert(s.subrange(j, j + 2) =~= seq![a, b]);
        } else if s.subrange(j, j + 2) == seq![a, b] {
            assert(s.subrange(j, j + 2)[0] == s[j]);
            assert(s.subrange(j, j + 2)[1] == s[j + 1]);
        }
    }
}

/// A one-character pattern occurs at `j` exactly when the character stands there.
proof fn lemma_occurs1(s: Seq<char>, a: char, j: int)
    ensures
        occurs_at(s, seq![a], j) <==> (0 <= j && j + 1 <= s.len() && s[j] == a),
{
    if 0 <= j && j + 1 <= s.len() {
        if s[j] == a {
            assert(s.subrange(j, j + 1) =~= seq![a]);
        } else if s.subrange(j, j + 1) == seq![a] {
            assert(s.subrange(j, j + 1)[0] == s[j]);
        }
    }
}

/// The line comment marker `//`.
pub open spec fn slashes() -> Seq<char> {
    seq!['/', '/']
}

/// The line comment marker `#`.
pub open spec fn hash_mark() -> Seq<char> {
    seq!['#']
}

/// Whether `t` is neither empty nor starts with a comment marker.
pub open spec fn holds_code(t: Seq<char>) -> bool {
    t.len() > 0 && !starts_with(t, slashes()) && !starts_with(t, hash_mark())
}

/// What the trimmed text of `code`, followed by a space, the comment marker `m`
/// (`//` or `#`), a space and the comment `c`, looks like, when neither `code`
/// nor `c` holds a marker: a comment line when `code` is blank, and otherwise a
/// line whose code, once the comment is cut off, is the code of `code`.
#[verifier::rlimit(60)]
proof fn lemma_comment_marker(code: Seq<char>, c: Seq<char>, m: Seq<char>)
    requires
        m == slashes() || m == hash_mark(),
        forall|j: int| !#[trigger] occurs_at(code, slashes(), j),
        forall|j: int| !#[trigger] occurs_at(code, hash_mark(), j),
        forall|j: int| !#[trigger] occurs_at(c, slashes(), j),
    ensures
        ({
            let t = trim(code + seq![' '] + m + seq![' '] + c);
            let t2 = trim(code);
            if t2.len() == 0 {
                starts_with(t, m)
            } else {
                holds_code(t) && holds_code(t2) && without_comment(t) == without_comment(t2)
            }
        }),
{
    let dd = slashes();
    let hh = hash_mark();
    reveal_strlit("//");
    reveal_strlit("#");
    assert("//"@ =~= dd);
    assert("#"@ =~= hh);
    assert(is_ws(' ') && !is_ws('/') && !is_ws('#'));
    let w = CharClass::Whitespace;
    let line = code + seq![' '] + m + seq![' '] + c;
    let rest = seq![' '] + m + seq![' '] + c;
    assert(line =~= code + rest);
    lemma_strip_start_append(code, rest, w);
    let sc = strip_start(code, w);
    let b = seq![' '] + c;
    lemma_strip_end_is_prefix(b, w);
    let r = strip_end(b, w);
    if sc.len() == 0 {
        assert(rest.drop_first() =~= m + b);
        assert(rest[0] == ' ');
        assert(in_class(w, rest[0]));
        assert((m + b)[0] == m[0]);
        assert(!in_class(w, m[0]));
        assert(strip_start(m + b, w) == m + b);
        assert(strip_start(rest, w) == strip_start(rest.drop_first(), w));
        assert(strip_start(rest, w) == m + b);
        lemma_strip_end_append(m, b, w);
        let t = m + r;
        assert(trim(line) == t);
        if m == dd {
            assert(t.subrange(0, 2) =~= dd);
        } else {
            assert(t.subrange(0, 1) =~= hh);
        }
        assert(trim(code) =~= Seq::<char>::empty());
    } else {
        assert(strip_end(sc, w).len() > 0) by {
            assert(sc =~= seq![sc[0]] + sc.drop_first());
            lemma_strip_start_head(code, w);
            lemma_strip_end_append(seq![sc[0]], sc.drop_first(), w);
        }
        let l = sc.len() as int;
        lemma_strip_start_head(code, w);
        lemma_strip_start_is_suffix(code, w);
        let off = code.len() - l;
        assert forall|j: int| 0 <= j && j + 1 < l implies !(#[trigger] sc[j] == '/' && sc[j + 1] == '/') by {
            assert(sc[j] == code[off + j] && sc[j + 1] == code[off + j + 1]);
            lemma_occurs2(code, '/', '/', off + j);
        }
        assert forall|j: int| 0 <= j < l implies sc[j] != '#' by {
            assert(sc[j] == code[off + j]);
            lemma_occurs1(code, '#', off + j);
        }
        let a = sc + seq![' '] + m;
        assert(strip_start(line, w) =~= a + b);
        lemma_strip_end_append(a, b, w);
        let t = a + r;
        assert(trim(line) == t);
        assert(t[0] == sc[0]);
        assert(!starts_with(t, dd)) by {
            if starts_with(t, dd) {
                assert(t.subrange(0, 2)[1] == t[1]);
                if l >= 2 {
                    assert(t[1] == sc[1]);
                } else {
                    assert(t[1] == ' ');
                }
            }
        }
        assert(!starts_with(t, hh)) by {
            if starts_with(t, hh) {
                assert(t.subrange(0, 1)[0] == t[0]);
            }
        }
        // The comment is found right after the space that follows the code.
        let u = sc + seq![' '];
        assert(t.subrange(0, l + 1) =~= u);
        if m == dd {
            lemma_occurs2(t, '/', '/', l + 1);
            assert forall|j: int| 0 <= j < l + 1 implies !#[trigger] occurs_at(t, dd, j) by {
                lemma_occurs2(t, '/', '/', j);
                if j + 1 < l {
                    assert(t[j] == sc[j] && t[j + 1] == sc[j + 1]);
                } else {
                    assert(t[j + 1] == ' ' || t[j] == ' ');
                }
            }
            lemma_find_from_first(t, dd, 0, l + 1);
        } else {
            assert forall|j: int| 0 <= j implies !#[trigger] occurs_at(t, dd, j) by {
                lemma_occurs2(t, '/', '/', j);
                if j + 1 < l {
                    assert(t[j] == sc[j] && t[j + 1] == sc[j + 1]);
                } else if j <= l + 2 {
                    if j + 2 <= t.len() {
                        assert(t[l] == ' ');
                        assert(t[l + 1] == '#');
                        if j == l + 2 {
                            assert(r[0] == b[0]);
                            assert(t[l + 2] == r[0]);
                        }
                    }
                } else if j + 2 <= t.len() {
                    assert(r[j - l - 2] == b[j - l - 2] && r[j - l - 1] == b[j - l - 1]);
                    assert(t[j] == b[j - l - 2] && t[j + 1] == b[j - l - 1]);
                    assert(b[j - l - 2] == c[j - l - 3] && b[j - l - 1] == c[j - l - 2]);
                    lemma_occurs2(c, '/', '/', j - l - 3);
                }
            }
            lemma_find_from_none(t, dd, 0);
            lemma_occurs1(t, '#', l + 1);
            assert forall|j: int| 0 <= j < l + 1 implies !#[trigger] occurs_at(t, hh, j) by {
                lemma_occurs1(t, '#', j);
                if j < l {
                    assert(t[j] == sc[j]);
                }
            }
            lemma_find_from_first(t, hh, 0, l + 1);
        }
        // Both sides go on with the code trimmed.
        lemma_strip_start_append(sc, seq![' '], w);
        assert(strip_start(sc, w) == sc);
        assert(strip_start(u, w) == u);
        assert(u.drop_last() =~= sc);
        assert(trim(u) == strip_end(sc, w));
        let t2 = trim(code);
        assert(t2 == strip_end(sc, w));
        assert(sc =~= seq![sc[0]] + sc.drop_first());
        lemma_strip_end_append(seq![sc[0]], sc.drop_first(), w);
        lemma_strip_end_is_prefix(sc, w);
        assert(t2.len() > 0);
        assert(forall|j: int| 0 <= j < t2.len() ==> t2[j] == sc[j]);
        assert(!starts_with(t2, dd)) by {
            if starts_with(t2, dd) {
                assert(t2.subrange(0, 2)[0] == t2[0] && t2.subrange(0, 2)[1] == t2[1]);
            }
        }
        assert(!starts_with(t2, hh)) by {
            if starts_with(t2, hh) {
                assert(t2.subrange(0, 1)[0] == t2[0]);
            }
        }
        assert forall|j: int| 0 <= j implies !#[trigger] occurs_at(t2, dd, j) by {
            lemma_occurs2(t2, '/', '/', j);
        }
        assert forall|j: int| 0 <= j implies !#[trigger] occurs_at(t2, hh, j) by {
            lemma_occurs1(t2, '#', j);
        }
        lemma_find_from_none(t2, dd, 0);
        lemma_find_from_none(t2, hh, 0);
        assert(without_comment(t2) == t2);
        assert(without_comment(t) == t2);
    }
}

/// A trailing comment (` // ...` or ` # ...`) does not change what a line means,
/// when neither the code nor the comment holds a comment marker.
#[verifier::rlimit(60)]
pub proof fn lemma_trailing_comment(code: Seq<char>, c: Seq<char>)
    requires
        !contains(code, "//"@),
        !contains(code, "#"@),
        !contains(c, "//"@),
        !contains(c, "#"@),
    ensures
        line_meaning(code + " // "@ + c) == line_meaning(code),
        line_meaning(code + " # "@ + c) == line_meaning(code),
{
    reveal_strlit("//");
    reveal_strlit("#");
    reveal_strlit(" // ");
    reveal_strlit(" # ");
    let dd = slashes();
    let hh = hash_mark();
    assert("//"@ =~= dd);
    assert("#"@ =~= hh);
    lemma_find_from_none(code, dd, 0);
    lemma_find_from_none(code, hh, 0);
    lemma_find_from_none(c, dd, 0);
    assert forall|j: int| !#[trigger] occurs_at(code, dd, j) by {
        if j >= 0 {
            assert(!occurs_at(code, dd, j));
        }
    }
    assert forall|j: int| !#[trigger] occurs_at(code, hh, j) by {
        if j >= 0 {
            assert(!occurs_at(code, hh, j));
        }
    }
    assert forall|j: int| !#[trigger] occurs_at(c, dd, j) by {
        if j >= 0 {
            assert(!occurs_at(c, dd, j));
        }
    }
    lemma_comment_marker(code, c, dd);
    lemma_comment_marker(code, c, hh);
    let l1 = code + seq![' '] + dd + seq![' '] + c;
    let l2 = code + seq![' '] + hh + seq![' '] + c;
    assert(code + " // "@ + c =~= l1);
    assert(code + " # "@ + c =~= l2);
    if trim(code).len() == 0 {
        lemma_blank_and_comment_lines(code);
        lemma_blank_and_comment_lines(l1);
        lemma_blank_and_comment_lines(l2);
    } else {
        lemma_same_code(l1, code);
        lemma_same_code(l2, code);
    }
}

/// Two lines that hold code and, with their comments cut off, the same code,
/// mean the same.
proof fn lemma_same_code(l1: Seq<char>, l2: Seq<char>)
    requires
        holds_code(trim(l1)),
        holds_code(trim(l2)),
        without_comment(trim(l1)) == without_comment(trim(l2)),
    ensures
        line_meaning(l1) == line_meaning(l2),
{
    reveal_strlit("//");
    reveal_strlit("#");
    assert("//"@ =~= slashes());
    assert("#"@ =~= hash_mark());
}

/// Whether `c` is one of the characters comparison symbols are made of.
pub open spec fn comparison_char(c: char) -> bool {
    c == '=' || c == '!' || c == '<' || c == '>'
}

/// Whether `s` holds no character of a comparison symbol.
pub open spec fn no_comparison_chars(s: Seq<char>) -> bool {
    forall|i: int| 0 <= i < s.len() ==> !comparison_char(#[trigger] s[i])
}

/// A pattern made of comparison characters is found in `l + sym + r`, where `l`
/// and `r` hold none, just where it is found in `sym`.
proof fn lemma_find_in_symbol(l: Seq<char>, sym: Seq<char>, r: Seq<char>, p: Seq<char>)
    requires
        no_comparison_chars(l),
        no_comparison_chars(r),
        p.len() > 0,
        forall|i: int| 0 <= i < p.len() ==> comparison_char(#[trigger] p[i]),
    ensures
        find(l + sym + r, p) == (match find(sym, p) {
            Some(j) => Some(l.len() + j),
            None => None::<int>,
        }),
{
    let t = l + sym + r;
    let ll = l.len() as int;
    let m = sym.len() as int;
    assert forall|i: int| #[trigger] occurs_at(t, p, i) implies ll <= i && occurs_at(sym, p, i - ll) by {
        assert(t.subrange(i, i + p.len())[0] == t[i]);
        assert(t[i] == p[0]);
        let e = i + p.len() - 1;
        assert(t.subrange(i, i + p.len())[p.len() - 1] == t[e]);
        assert(t[e] == p[p.len() - 1]);
        if i < ll {
            assert(t[i] == l[i]);
        }
        if e >= ll + m {
            assert(t[e] == r[e - ll - m]);
        }
        assert(sym.subrange(i - ll, i - ll + p.len()) =~= t.subrange(i, i + p.len()));
    }
    assert forall|i: int| ll <= i && #[trigger] occurs_at(sym, p, i - ll) implies occurs_at(t, p, i) by {
        assert(sym.subrange(i - ll, i - ll + p.len()) =~= t.subrange(i, i + p.len()));
    }
    match find(sym, p) {
        Some(j) => {
            lemma_find_from_bounds(sym, p, 0);
            lemma_find_from_before(sym, p, 0);
            assert(occurs_at(sym, p, (ll + j) - ll));
            assert forall|i: int| 0 <= i < ll + j implies !#[trigger] occurs_at(t, p, i) by {
                if occurs_at(t, p, i) {
                    assert(occurs_at(sym, p, i - ll));
                }
            }
            lemma_find_from_first(t, p, 0, ll + j);
        },
        None => {
            lemma_find_from_none(sym, p, 0);
            assert forall|i: int| 0 <= i implies !#[trigger] occurs_at(t, p, i) by {
                if occurs_at(t, p, i) {
                    assert(occurs_at(sym, p, i - ll));
                }
            }
            lemma_find_from_none(t, p, 0);
        },
    }
}

/// `condition_with` on `l + sym + r` reads `sym` when it is the pattern sought.
proof fn lemma_condition_with_symbol(l: Seq<char>, sym: Seq<char>, r: Seq<char>, op: ConditionOp)
    requires
        no_comparison_chars(l),
        no_comparison_chars(r),
        sym.len() > 0,
        forall|i: int| 0 <= i < sym.len() ==> comparison_char(#[trigger] sym[i]),
        find(sym, sym) == Some(0int),
    ensures
        condition_with(l + sym + r, sym, op) == (if names_tray(trim(l)) {
            Some((tray_index_of(trim(l)), op, operand_of(trim(r))))
        } else {
            None
        }),
{
    lemma_find_in_symbol(l, sym, r, sym);
    let t = l + sym + r;
    assert(t.subrange(0, l.len() as int) =~= l);
    assert(t.subrange((l.len() + sym.len()) as int, t.len() as int) =~= r);
}

proof fn lemma_condition_equal(l: Seq<char>, r: Seq<char>)
    requires
        no_comparison_chars(l),
        no_comparison_chars(r),
        names_tray(trim(l)),
    ensures
        condition_of(l + "=="@ + r) == Some((tray_index_of(trim(l)), ConditionOp::Equal, operand_of(trim(r)))),
{
    reveal_strlit("==");
    assert("=="@ =~= seq!['=', '=']);
    reveal_with_fuel(find_from, 3);
    lemma_occurs2("=="@, '=', '=', 0);
    lemma_find_from_first("=="@, "=="@, 0, 0);
    assert(find("=="@, "=="@) == Some(0int));
    lemma_condition_with_symbol(l, "=="@, r, ConditionOp::Equal);
}

proof fn lemma_condition_not_equal(l: Seq<char>, r: Seq<char>)
    requires
        no_comparison_chars(l),
        no_comparison_chars(r),
        names_tray(trim(l)),
    ensures
        condition_of(l + "!="@ + r) == Some((tray_index_of(trim(l)), ConditionOp::NotEqual, operand_of(trim(r)))),
{
    reveal_strlit("!=");
    assert("!="@ =~= seq!['!', '=']);
    reveal_with_fuel(find_from, 3);
    reveal_strlit("==");
    assert("=="@ =~= seq!['=', '=']);
    assert forall|j: int| !#[trigger] occurs_at("!="@, "=="@, j) by {
        lemma_occurs2("!="@, '=', '=', j);
    }
    lemma_find_from_none("!="@, "=="@, 0);
    assert(find("!="@, "=="@) is None);
    lemma_find_in_symbol(l, "!="@, r, "=="@);
    lemma_occurs2("!="@, '!', '=', 0);
    lemma_find_from_first("!="@, "!="@, 0, 0);
    assert(find("!="@, "!="@) == Some(0int));
    lemma_condition_with_symbol(l, "!="@, r, ConditionOp::NotEqual);
}

proof fn lemma_condition_at_least(l: Seq<char>, r: Seq<char>)
    requires
        no_comparison_chars(l),
        no_comparison_chars(r),
        names_tray(trim(l)),
    ensures
        condition_of(l + ">="@ + r) == Some((tray_index_of(trim(l)), ConditionOp::GreaterEqual, operand_of(trim(r)))),
{
    reveal_strlit(">=");
    assert(">="@ =~= seq!['>', '=']);
    reveal_with_fuel(find_from, 3);
    reveal_strlit("==");
    assert("=="@ =~= seq!['=', '=']);
    assert forall|j: int| !#[trigger] occurs_at(">="@, "=="@, j) by {
        lemma_occurs2(">="@, '=', '=', j);
    }
    lemma_find_from_none(">="@, "=="@, 0);
    assert(find(">="@, "=="@) is None);
    lemma_find_in_symbol(l, ">="@, r, "=="@);
    reveal_strlit("!=");
    assert("!="@ =~= seq!['!', '=']);
    assert forall|j: int| !#[trigger] occurs_at(">="@, "!="@, j) by {
        lemma_occurs2(">="@, '!', '=', j);
    }
    lemma_find_from_none(">="@, "!="@, 0);
    assert(find(">="@, "!="@) is None);
    lemma_find_in_symbol(l, ">="@, r, "!="@);
    lemma_occurs2(">="@, '>', '=', 0);
    lemma_find_from_first(">="@, ">="@, 0, 0);
    assert(find(">="@, ">="@) == Some(0int));
    lemma_condition_with_symbol(l, ">="@, r, ConditionOp::GreaterEqual);
}

proof fn lemma_condition_at_most(l: Seq<char>, r: Seq<char>)
    requires
        no_comparison_chars(l),
        no_comparison_chars(r),
        names_tray(trim(l)),
    ensures
        condition_of(l + "<="@ + r) == Some((tray_index_of(trim(l)), ConditionOp::LessEqual, operand_of(trim(r)))),
{
    reveal_strlit("<=");
    assert("<="@ =~= seq!['<', '=']);
    reveal_with_fuel(find_from, 3);
    reveal_strlit("==");
    assert("=="@ =~= seq!['=', '=']);
    assert forall|j: int| !#[trigger] occurs_at("<="@, "=="@, j) by {
        lemma_occurs2("<="@, '=', '=', j);
    }
    lemma_find_from_none("<="@, "=="@, 0);
    assert(find("<="@, "=="@) is None);
    lemma_find_in_symbol(l, "<="@, r, "=="@);
    reveal_strlit("!=");
    assert("!="@ =~= seq!['!', '=']);
    assert forall|j: int| !#[trigger] occurs_at("<="@, "!="@, j) by {
        lemma_occurs2("<="@, '!', '=', j);
    }
    lemma_find_from_none("<="@, "!="@, 0);
    assert(find("<="@, "!="@) is None);
    lemma_find_in_symbol(l, "<="@, r, "!="@);
    reveal_strlit(">=");
    assert(">="@ =~= seq!['>', '=']);
    assert forall|j: int| !#[trigger] occurs_at("<="@, ">="@, j) by {
        lemma_occurs2("<="@, '>', '=', j);
    }
    lemma_find_from_none("<="@, ">="@, 0);
    assert(find("<="@, ">="@) is None);
    lemma_find_in_symbol(l, "<="@, r, ">="@);
    lemma_occurs2("<="@, '<', '=', 0);
    lemma_find_from_first("<="@, "<="@, 0, 0);
    assert(find("<="@, "<="@) == Some(0int));
    lemma_condition_with_symbol(l, "<="@, r, ConditionOp::LessEqual);
}

proof fn lemma_condition_greater(l: Seq<char>, r: Seq<char>)
    requires
        no_comparison_chars(l),
        no_comparison_chars(r),
        names_tray(trim(l)),
    ensures
        condition_of(l + ">"@ + r) == Some((tray_index_of(trim(l)), ConditionOp::Greater, operand_of(trim(r)))),
{
    reveal_strlit(">");
    assert(">"@ =~= seq!['>']);
    reveal_with_fuel(find_from, 3);
    reveal_strlit("==");
    assert("=="@ =~= seq!['=', '=']);
    assert forall|j: int| !#[trigger] occurs_at(">"@, "=="@, j) by {
        lemma_occurs2(">"@, '=', '=', j);
    }
    lemma_find_from_none(">"@, "=="@, 0);
    assert(find(">"@, "=="@) is None);
    lemma_find_in_symbol(l, ">"@, r, "=="@);
    reveal_strlit("!=");
    assert("!="@ =~= seq!['!', '=']);
    assert forall|j: int| !#[trigger] occurs_at(">"@, "!="@, j) by {
        lemma_occurs2(">"@, '!', '=', j);
    }
    lemma_find_from_none(">"@, "!="@, 0);
    assert(find(">"@, "!="@) is None);
    lemma_find_in_symbol(l, ">"@, r, "!="@);
    reveal_strlit(">=");
    assert(">="@ =~= seq!['>', '=']);
    assert forall|j: int| !#[trigger] occurs_at(">"@, ">="@, j) by {
        lemma_occurs2(">"@, '>', '=', j);
    }
    lemma_find_from_none(">"@, ">="@, 0);
    assert(find(">"@, ">="@) is None);
    lemma_find_in_symbol(l, ">"@, r, ">="@);
    reveal_strlit("<=");
    assert("<="@ =~= seq!['<', '=']);
    assert forall|j: int| !#[trigger] occurs_at(">"@, "<="@, j) by {
        lemma_occurs2(">"@, '<', '=', j);
    }
    lemma_find_from_none(">"@, "<="@, 0);
    assert(find(">"@, "<="@) is None);
    lemma_find_in_symbol(l, ">"@, r, "<="@);
    lemma_occurs1(">"@, '>', 0);
    lemma_find_from_first(">"@, ">"@, 0, 0);
    assert(find(">"@, ">"@) == Some(0int));
    lemma_condition_with_symbol(l, ">"@, r, ConditionOp::Greater);
}

proof fn lemma_condition_less(l: Seq<char>, r: Seq<char>)
    requires
        no_comparison_chars(l),
        no_comparison_chars(r),
        names_tray(trim(l)),
    ensures
        condition_of(l + "<"@ + r) == Some((tray_index_of(trim(l)), ConditionOp::Less, operand_of(trim(r)))),
{
    reveal_strlit("<");
    assert("<"@ =~= seq!['<']);
    reveal_with_fuel(find_from, 3);
    reveal_strlit("==");
    assert("=="@ =~= seq!['=', '=']);
    assert forall|j: int| !#[trigger] occurs_at("<"@, "=="@, j) by {
        lemma_occurs2("<"@, '=', '=', j);
    }
    lemma_find_from_none("<"@, "=="@, 0);
    assert(find("<"@, "=="@) is None);
    lemma_find_in_symbol(l, "<"@, r, "=="@);
    reveal_strlit("!=");
    assert("!="@ =~= seq!['!', '=']);
    assert forall|j: int| !#[trigger] occurs_at("<"@, "!="@, j) by {
        lemma_occurs2("<"@, '!', '=', j);
    }
    lemma_find_from_none("<"@, "!="@, 0);
    assert(find("<"@, "!="@) is None);
    lemma_find_in_symbol(l, "<"@, r, "!="@);
    reveal_strlit(">=");
    assert(">="@ =~= seq!['>', '=']);
    assert forall|j: int| !#[trigger] occurs_at("<"@, ">="@, j) by {
        lemma_occurs2("<"@, '>', '=', j);
    }
    lemma_find_from_none("<"@, ">="@, 0);
    assert(find("<"@, ">="@) is None);
    lemma_find_in_symbol(l, "<"@, r, ">="@);
    reveal_strlit("<=");
    assert("<="@ =~= seq!['<', '=']);
    assert forall|j: int| !#[trigger] occurs_at("<"@, "<="@, j) by {
        lemma_occurs2("<"@, '<', '=', j);
    }
    lemma_find_from_none("<"@, "<="@, 0);
    assert(find("<"@, "<="@) is None);
    lemma_find_in_symbol(l, "<"@, r, "<="@);
    reveal_strlit(">");
    assert(">"@ =~= seq!['>']);
    assert forall|j: int| !#[trigger] occurs_at("<"@, ">"@, j) by {
        lemma_occurs1("<"@, '>', j);
    }
    lemma_find_from_none("<"@, ">"@, 0);
    assert(find("<"@, ">"@) is None);
    lemma_find_in_symbol(l, "<"@, r, ">"@);
    lemma_occurs1("<"@, '<', 0);
    lemma_find_from_first("<"@, "<"@, 0, 0);
    assert(find("<"@, "<"@) == Some(0int));
    lemma_condition_with_symbol(l, "<"@, r, ConditionOp::Less);
}

/// A condition `trayN SYM value`, whose two sides hold no comparison character,
/// is read with the comparison its symbol names: `==` equal, `!=` not equal,
/// `>=` at least, `<=` at most, `>` greater, `<` less; the tray is the left side
/// and the value the right side.
pub proof fn lemma_condition_symbols(l: Seq<char>, r: Seq<char>)
    requires
        no_comparison_chars(l),
        no_comparison_chars(r),
        names_tray(trim(l)),
    ensures
        condition_of(l + "=="@ + r) == Some((tray_index_of(trim(l)), ConditionOp::Equal, operand_of(trim(r)))),
        condition_of(l + "!="@ + r) == Some((tray_index_of(trim(l)), ConditionOp::NotEqual, operand_of(trim(r)))),
        condition_of(l + ">="@ + r) == Some((tray_index_of(trim(l)), ConditionOp::GreaterEqual, operand_of(trim(r)))),
        condition_of(l + "<="@ + r) == Some((tray_index_of(trim(l)), ConditionOp::LessEqual, operand_of(trim(r)))),
        condition_of(l + ">"@ + r) == Some((tray_index_of(trim(l)), ConditionOp::Greater, operand_of(trim(r)))),
        condition_of(l + "<"@ + r) == Some((tray_index_of(trim(l)), ConditionOp::Less, operand_of(trim(r)))),
{
    lemma_condition_equal(l, r);
    lemma_condition_not_equal(l, r);
    lemma_condition_at_least(l, r);
    lemma_condition_at_most(l, r);
    lemma_condition_greater(l, r);
    lemma_condition_less(l, r);
}

/// Indentation and trailing white space do not change what a line means.
pub proof fn lemma_surrounding_space(line: Seq<char>)
    ensures
        line_meaning(trim(line)) == line_meaning(line),
{
    lemma_strip_idempotent(line, CharClass::Whitespace);
}

// ---------------------------------------------------------------------------
// Lemmas
// ---------------------------------------------------------------------------

pub proof fn lemma_char_at_byte_bounds(s: Seq<char>, b: int)
    ensures
        char_at_byte(s, b) matches Some(j) ==> 0 <= j <= s.len() && (b > 0 ==> j >= 1),
    decreases s.len(),
{
    if b == 0 {
    } else if b < 0 || s.len() == 0 || b < width(s[0]) {
    } else {
        lemma_char_at_byte_bounds(s.drop_first(), b - width(s[0]));
    }
}

pub proof fn lemma_char_at_byte_monotonic(s: Seq<char>, b1: int, b2: int)
    requires
        b1 <= b2,
        char_at_byte(s, b1) is Some,
        char_at_byte(s, b2) is Some,
    ensures
        char_at_byte(s, b1)->0 <= char_at_byte(s, b2)->0,
    decreases s.len(),
{
    lemma_char_at_byte_bounds(s, b1);
    lemma_char_at_byte_bounds(s, b2);
    if b1 == 0 {
    } else {
        lemma_char_at_byte_monotonic(s.drop_first(), b1 - width(s[0]), b2 - width(s[0]));
    }
}

pub proof fn lemma_without_comment_len(t: Seq<char>)
    ensures
        without_comment(t).len() <= t.len(),
{
    lemma_find_bounds(t, "//"@);
    lemma_find_bounds(t, "#"@);
    match find(t, "//"@) {
        Some(i) => lemma_strip_len(t.subrange(0, i), CharClass::Whitespace),
        None => match find(t, "#"@) {
            Some(i) => lemma_strip_len(t.subrange(0, i), CharClass::Whitespace),
            None => {},
        },
    }
}

/// The `then` part of an inline `if` is shorter than the line it came from.
pub proof fn lemma_line_shrinks(line: Seq<char>, b6: int)
    requires
        b6 > 0,
        char_at_byte(without_comment(trim(line)), b6) is Some,
    ensures
        ({
            let code = without_comment(trim(line));
            trim(code.subrange(char_at_byte(code, b6)->0, code.len() as int)).len() < line.len()
        }),
{
    let t = trim(line);
    let code = without_comment(t);
    lemma_strip_len(line, CharClass::Whitespace);
    lemma_without_comment_len(t);
    lemma_char_at_byte_bounds(code, b6);
    let j = char_at_byte(code, b6)->0;
    lemma_strip_len(code.subrange(j, code.len() as int), CharClass::Whitespace);
}

// ---------------------------------------------------------------------------
// Reading tokens
// ---------------------------------------------------------------------------

fn tray_index_chars(token: &Vec<char>) -> (r: usize)
    ensures
        r == tray_index_of(token@),
{
    let d = strip_chars(token, CharClass::NonNumeric);
    match parse_usize_chars(&d) {
        Some(n) => if n == 0 {
            0
        } else {
            n - 1
        },
        None => 0,
    }
}

/// The zero-based tray that a token such as `tray3` names (`tray3` is 2); a token
/// without a readable number names tray 0.
pub fn parse_tray_index(token: &str) -> (r: usize)
    ensures
        r == tray_index_of(token@),
{
    tray_index_chars(&chars_of(token))
}

fn sanitized_chars(s: &Vec<char>) -> (r: Vec<char>)
    ensures
        r@ == sanitized(s@),
{
    let a = trim_chars(s);
    let b = strip_chars(&a, CharClass::NameDelimiter);
    trim_chars(&b)
}

/// A workstation name without surrounding white space, colons, quotes, commas
/// and semicolons.
pub fn sanitize_name(s: &str) -> (r: String)
    ensures
        r@ == sanitized(s@),
{
    string_from_chars(&sanitized_chars(&chars_of(s)))
}

fn names_tray_chars(s: &Vec<char>) -> (r: bool)
    ensures
        r == names_tray(s@),
{
    let low = to_lowercase(s);
    starts_with_str(&low, "tray")
}

fn is_quoted_chars(s: &Vec<char>, q: char, min: usize) -> (r: bool)
    ensures
        r == is_quoted(s@, q, min as nat),
{
    s.len() >= min && s.len() > 0 && s[0] == q && s[s.len() - 1] == q
}

fn unquoted_chars(s: &Vec<char>) -> (r: Vec<char>)
    requires
        s.len() >= 2,
    ensures
        r@ == unquoted(s@),
{
    slice_chars(s, 1, s.len() - 1)
}

fn operand_chars(token: &Vec<char>) -> (r: Operand)
    ensures
        r@ == operand_of(token@),
{
    let t = trim_chars(token);
    if names_tray_chars(&t) {
        Operand::Tray(tray_index_chars(&t))
    } else if is_quoted_chars(&t, '\'', 3) {
        Operand::Char(t[1])
    } else if is_quoted_chars(&t, '"', 2) {
        Operand::StringLit(string_from_chars(&unquoted_chars(&t)))
    } else {
        Operand::Number(
            match parse_i64_chars(&t) {
                Some(v) => v,
                None => 0,
            },
        )
    }
}

/// What an operand token means: a tray (`tray2`), a character (`'A'`), a string
/// (`"hi"`), or else a number (0 when the token is not one).
pub fn parse_operand(token: &str) -> (r: Operand)
    ensures
        r@ == operand_of(token@),
{
    operand_chars(&chars_of(token))
}

fn offset_chars(s: &Vec<char>) -> (r: StoreroomOffset)
    ensures
        r == offset_of(s@),
{
    let mut inner = s.clone();
    assert(inner@ == s@);
    match find_str(s, "[") {
        Some(o) => match find_str(s, "]") {
            Some(c) => if c > o {
                proof {
                    lemma_find_bounds(s@, "]"@);
                }
                inner = slice_chars(s, o + 1, c);
            },
            None => {},
        },
        None => {},
    }
    let t = trim_chars(&inner);
    if names_tray_chars(&t) {
        StoreroomOffset::Dynamic(tray_index_chars(&t))
    } else {
        let d = strip_chars(&t, CharClass::NonNumeric);
        StoreroomOffset::Fixed(
            match parse_usize_chars(&d) {
                Some(v) => v,
                None => 0,
            },
        )
    }
}

/// What a storeroom reference means: the text between `[` and `]` (or the whole
/// text) names a tray (`Dynamic`) or a bin number (`Fixed`, 0 when unreadable).
pub fn parse_storeroom_offset(s: &str) -> (r: StoreroomOffset)
    ensures
        r == offset_of(s@),
{
    offset_chars(&chars_of(s))
}

/// The model of a parsed condition.
pub open spec fn cond_model(r: Option<(usize, ConditionOp, Operand)>) -> Option<
    (usize, ConditionOp, OperandModel),
> {
    match r {
        Some((t, op, v)) => Some((t, op, v@)),
        None => None,
    }
}

/// The lowercase forms of the words of a line, computed once.
fn lower_word(tk: &Vec<Vec<char>>, i: usize) -> (r: Vec<char>)
    requires
        i < tk.len(),
    ensures
        r@ == lowercase_of(views(tk@)[i as int]),
{
    to_lowercase(&tk[i])
}

// ---------------------------------------------------------------------------
// Reading lines
// ---------------------------------------------------------------------------

/// The FAL line parser.
pub struct Parser;

impl Parser {
    fn condition_with(cond: &Vec<char>, sym: &str, op: ConditionOp) -> (r: Option<
        (usize, ConditionOp, Operand),
    >)
        ensures
            cond_model(r) == condition_with(cond@, sym@, op),
    {
        match find_str(cond, sym) {
            Some(idx) => {
                proof {
                    lemma_find_bounds(cond@, sym@);
                }
                let m = sym.unicode_len();
                let n = cond.len();
                let left = trim_chars(&slice_chars(cond, 0, idx));
                let right = trim_chars(&slice_chars(cond, idx + m, n));
                if names_tray_chars(&left) {
                    Some((tray_index_chars(&left), op, operand_chars(&right)))
                } else {
                    None
                }
            },
            None => None,
        }
    }

    fn parse_condition(cond: &Vec<char>) -> (r: Option<(usize, ConditionOp, Operand)>)
        ensures
            cond_model(r) == condition_of(cond@),
    {
        let r = Self::condition_with(cond, "==", ConditionOp::Equal);
        if r.is_some() {
            return r;
        }
        let r = Self::condition_with(cond, "!=", ConditionOp::NotEqual);
        if r.is_some() {
            return r;
        }
        let r = Self::condition_with(cond, ">=", ConditionOp::GreaterEqual);
        if r.is_some() {
            return r;
        }
        let r = Self::condition_with(cond, "<=", ConditionOp::LessEqual);
        if r.is_some() {
            return r;
        }
        let r = Self::condition_with(cond, ">", ConditionOp::Greater);
        if r.is_some() {
            return r;
        }
        Self::condition_with(cond, "<", ConditionOp::Less)
    }

    fn without_comment(t: &Vec<char>) -> (r: Vec<char>)
        ensures
            r@ == without_comment(t@),
    {
        proof {
            lemma_find_bounds(t@, "//"@);
            lemma_find_bounds(t@, "#"@);
        }
        match find_str(t, "//") {
            Some(i) => trim_chars(&slice_chars(t, 0, i)),
            None => match find_str(t, "#") {
                Some(i) => trim_chars(&slice_chars(t, 0, i)),
                None => t.clone(),
            },
        }
    }

    fn assign_char(c: char, tray: usize) -> (r: Instruction)
        ensures
            r@ == (InstrModel::AssignChar { ch: c, tray }),
    {
        Instruction::AssignChar { val: c, tray }
    }

    fn value_assignment(v: &Vec<char>, tray: usize) -> (r: Option<Instruction>)
        ensures
            opt_model(r) == value_assignment(v@, tray),
    {
        if is_quoted_chars(v, '"', 2) {
            Some(Instruction::AssignString { text: string_from_chars(&unquoted_chars(v)), tray })
        } else if is_quoted_chars(v, '\'', 3) {
            Some(Self::assign_char(v[1], tray))
        } else {
            match parse_i64_chars(v) {
                Some(val) => Some(Instruction::Fill { val, tray }),
                None => None,
            }
        }
    }

    fn assignment(code: &Vec<char>) -> (r: Option<Instruction>)
        ensures
            opt_model(r) == assignment_of(code@),
    {
        if contains_str(code, "=") && !contains_str(code, "==") && !contains_str(code, "!=")
            && !contains_str(code, "<=") && !contains_str(code, ">=") {
            let n = code.len();
            match find_str(code, "=") {
                Some(e) => {
                    proof {
                        lemma_find_bounds(code@, "="@);
                        reveal_strlit("=");
                    }
                    let target = trim_chars(&slice_chars(code, 0, e));
                    let v = trim_chars(&slice_chars(code, e + 1, n));
                    if names_tray_chars(&target) {
                        Self::value_assignment(&v, tray_index_chars(&target))
                    } else {
                        None
                    }
                },
                None => None,
            }
        } else {
            None
        }
    }

    fn io_keyword(code: &Vec<char>, low: &Vec<char>) -> (r: Option<Instruction>)
        ensures
            opt_model(r) == io_of(code@, low@),
    {
        let tk = words_of(code);
        let last: Vec<char> = if tk.len() > 0 {
            tk[tk.len() - 1].clone()
        } else {
            Vec::new()
        };
        assert(last@ == last_word(code@));
        if !names_tray_chars(&last) {
            return None;
        }
        let tray = tray_index_chars(&last);
        if starts_with_str(low, "say_number ") || starts_with_str(low, "say number ")
            || starts_with_str(low, "print_number ") || starts_with_str(low, "show_number ") {
            Some(Instruction::SayNumber { tray })
        } else if starts_with_str(low, "ask_string ") || starts_with_str(low, "ask_text ")
            || starts_with_str(low, "ask text ") || starts_with_str(low, "input_string ")
            || starts_with_str(low, "input_text ") {
            Some(Instruction::AskString { tray })
        } else if starts_with_str(low, "ask_char ") || starts_with_str(low, "ask char ")
            || starts_with_str(low, "input_char ") {
            Some(Instruction::AskChar { tray })
        } else if starts_with_str(low, "ask ") || starts_with_str(low, "ask_number ")
            || starts_with_str(low, "ask number ") || starts_with_str(low, "input ")
            || starts_with_str(low, "listen ") {
            Some(Instruction::AskNumber { tray })
        } else {
            None
        }
    }

    fn move_form(tk: &Vec<Vec<char>>) -> (r: Option<Instruction>)
        requires
            tk.len() >= 4,
        ensures
            opt_model(r) == move_of(views(tk@)),
    {
        let ghost w = views(tk@);
        let src = &tk[1];
        let dst_tray = tray_index_chars(&tk[3]);
        if src.len() > 0 && src[0] == '"' {
            let rest = join_words(tk, 1, tk.len());
            match find_str(&rest, "\"") {
                Some(first_q) => match rfind_char(&rest, '"') {
                    Some(last_q) => {
                        if last_q > first_q {
                            proof {
                                lemma_rfind_bounds(rest@, '"', rest@.len() as int);
                            }
                            return Some(
                                Instruction::AssignString {
                                    text: string_from_chars(
                                        &slice_chars(&rest, first_q + 1, last_q),
                                    ),
                                    tray: dst_tray,
                                },
                            );
                        }
                    },
                    None => {},
                },
                None => {},
            }
        }
        if names_tray_chars(src) {
            Some(Instruction::Move { src_tray: tray_index_chars(src), dst_tray })
        } else {
            match parse_i64_chars(src) {
                Some(val) => Some(Instruction::Fill { val, tray: dst_tray }),
                None => None,
            }
        }
    }

    fn random_form(tk: &Vec<Vec<char>>) -> (r: Instruction)
        requires
            tk.len() >= 2,
        ensures
            r@ == random_of(views(tk@)),
    {
        let n = tk.len();
        let max = if n >= 4 && {
            let mid = lower_word(tk, 2);
            eq_str(&mid, "max") || eq_str(&mid, "to")
        } {
            operand_chars(&tk[3])
        } else if n >= 3 {
            operand_chars(&tk[2])
        } else {
            Operand::Number(100)
        };
        Instruction::Random { max, tray: tray_index_chars(&tk[1]) }
    }

    fn default_action() -> (r: String)
        ensures
            r@ == "default"@,
    {
        string_from_chars(&chars_of("default"))
    }

    fn call_form(tk: &Vec<Vec<char>>) -> (r: Instruction)
        requires
            tk.len() >= 2,
        ensures
            r@ == call_of(views(tk@)),
    {
        let n = tk.len();
        let t1 = lower_word(tk, 1);
        if eq_str(&t1, "supervisor") || eq_str(&t1, "call_supervisor") {
            let action = if n >= 3 {
                string_from_chars(&lower_word(tk, 2))
            } else {
                Self::default_action()
            };
            let tray = if n >= 4 {
                Some(tray_index_chars(&tk[3]))
            } else {
                None
            };
            Instruction::CallSupervisor { action, tray }
        } else {
            Instruction::Call { workstation: string_from_chars(&sanitized_chars(&tk[n - 1])) }
        }
    }

    fn arithmetic(first: &Vec<char>, tk: &Vec<Vec<char>>) -> (r: Option<Instruction>)
        requires
            tk.len() >= 4,
        ensures
            opt_model(r) == arithmetic_of(first@, views(tk@)),
    {
        let mid = lower_word(tk, 2);
        if eq_str(first, "add") && eq_str(&mid, "to") {
            Some(Instruction::Add { src: operand_chars(&tk[1]), dst_tray: tray_index_chars(&tk[3]) })
        } else if eq_str(first, "sub") && eq_str(&mid, "from") {
            Some(Instruction::Sub { src: operand_chars(&tk[1]), dst_tray: tray_index_chars(&tk[3]) })
        } else if eq_str(first, "multiply") && eq_str(&mid, "by") {
            Some(
                Instruction::Multiply {
                    src: operand_chars(&tk[3]),
                    dst_tray: tray_index_chars(&tk[1]),
                },
            )
        } else if eq_str(first, "divide") && eq_str(&mid, "by") {
            Some(
                Instruction::Divide { src: operand_chars(&tk[3]), dst_tray: tray_index_chars(&tk[1]) },
            )
        } else if (eq_str(first, "modulo") || eq_str(first, "mod")) && eq_str(&mid, "by") {
            Some(
                Instruction::Modulo { src: operand_chars(&tk[3]), dst_tray: tray_index_chars(&tk[1]) },
            )
        } else if eq_str(first, "compare") && eq_str(&mid, "with") {
            Some(
                Instruction::Compare {
                    tray_a: tray_index_chars(&tk[1]),
                    val_b: operand_chars(&tk[3]),
                },
            )
        } else if (eq_str(first, "move") || eq_str(first, "copy")) && eq_str(&mid, "to") {
            Self::move_form(tk)
        } else if eq_str(first, "fill") && eq_str(&mid, "into") {
            Some(
                Instruction::Fill {
                    val: match parse_i64_chars(&tk[1]) {
                        Some(v) => v,
                        None => 0,
                    },
                    tray: tray_index_chars(&tk[3]),
                },
            )
        } else {
            None
        }
    }

    fn jump_form(first: &Vec<char>, target: &Vec<char>, n: usize) -> (r: Option<Instruction>)
        ensures
            opt_model(r) == jump_of(first@, target@, n as nat),
    {
        if eq_str(first, "jump") && n >= 2 {
            Some(Instruction::Jump { target: string_from_chars(target) })
        } else if eq_str(first, "jump_if_equal") || eq_str(first, "je") {
            Some(Instruction::JumpIfEqual { target: string_from_chars(target) })
        } else if eq_str(first, "jump_if_not_equal") || eq_str(first, "jne") {
            Some(Instruction::JumpIfNotEqual { target: string_from_chars(target) })
        } else if eq_str(first, "jump_if_greater") || eq_str(first, "jg") {
            Some(Instruction::JumpIfGreater { target: string_from_chars(target) })
        } else if eq_str(first, "jump_if_less") || eq_str(first, "jl") {
            Some(Instruction::JumpIfLess { target: string_from_chars(target) })
        } else {
            None
        }
    }

    fn keyword(code: &Vec<char>) -> (r: Option<Instruction>)
        ensures
            opt_model(r) == keyword_of(code@),
    {
        let tk = words_of(code);
        let n = tk.len();
        if n == 0 {
            return None;
        }
        let first = lower_word(&tk, 0);
        if eq_str(&first, "workstation") && n >= 2 {
            return Some(
                Instruction::Workstation {
                    name: string_from_chars(&sanitized_chars(&join_words(&tk, 1, n))),
                },
            );
        }
        if eq_str(&first, "end") || eq_str(&first, "endworkstation") || eq_str(
            &first,
            "exit_workstation",
        ) {
            return Some(Instruction::EndWorkstation);
        }
        if n >= 4 {
            let a = Self::arithmetic(&first, &tk);
            if a.is_some() {
                return a;
            }
        }
        if eq_str(&first, "clear") && n >= 2 {
            return Some(Instruction::Clear { tray: tray_index_chars(&tk[1]) });
        }
        if eq_str(&first, "random") && n >= 2 {
            return Some(Self::random_form(&tk));
        }
        let target = sanitized_chars(&tk[n - 1]);
        let j = Self::jump_form(&first, &target, n);
        if j.is_some() {
            return j;
        }
        if eq_str(&first, "store") && n >= 3 {
            return Some(
                Instruction::Store {
                    tray: tray_index_chars(&tk[1]),
                    offset: offset_chars(&join_words(&tk, 2, n)),
                },
            );
        }
        if (eq_str(&first, "load") || eq_str(&first, "fetch")) && n >= 3 {
            return Some(
                Instruction::Load {
                    offset: offset_chars(&join_words(&tk, 1, n - 1)),
                    tray: tray_index_chars(&tk[n - 1]),
                },
            );
        }
        if eq_str(&first, "call") && n >= 2 {
            return Some(Self::call_form(&tk));
        }
        if eq_str(&first, "call_supervisor") {
            let action = if n >= 2 {
                string_from_chars(&lower_word(&tk, 1))
            } else {
                Self::default_action()
            };
            let tray = if n >= 3 {
                Some(tray_index_chars(&tk[2]))
            } else {
                None
            };
            return Some(Instruction::CallSupervisor { action, tray });
        }
        if eq_str(&first, "return") || eq_str(&first, "ret") {
            let tray = if n >= 2 {
                Some(tray_index_chars(&tk[1]))
            } else {
                None
            };
            return Some(Instruction::Return { tray });
        }
        None
    }

    fn plain_line(code: &Vec<char>, low: &Vec<char>) -> (r: Option<Option<Instruction>>)
        requires
            low@ == lowercase_of(code@),
        ensures
            r is None ==> plain_line_of(code@, low@) is None,
            r matches Some(x) ==> plain_line_of(code@, low@) == Some(opt_model(x)),
    {
        let a = Self::assignment(code);
        if a.is_some() {
            return Some(a);
        }
        if starts_with_str(low, "say ") {
            match char_at_byte_exec(code, 4) {
                None => {
                    return None;
                },
                Some(j) => {
                    proof {
                        crate::parser::lemma_char_at_byte_bounds(code@, 4);
                    }
                    let rest = trim_chars(&slice_chars(code, j, code.len()));
                    if is_quoted_chars(&rest, '"', 2) {
                        return Some(
                            Some(
                                Instruction::SayLiteral {
                                    text: string_from_chars(&unquoted_chars(&rest)),
                                },
                            ),
                        );
                    } else if names_tray_chars(&rest) {
                        return Some(Some(Instruction::SayTray { tray: tray_index_chars(&rest) }));
                    }
                },
            }
        }
        let io = Self::io_keyword(code, low);
        if io.is_some() {
            return Some(io);
        }
        Some(Self::keyword(code))
    }

    fn line(line: &Vec<char>) -> (r: Option<Option<Instruction>>)
        ensures
            r is None ==> line_meaning(line@) is None,
            r matches Some(x) ==> line_meaning(line@) == Some(opt_model(x)),
        decreases line@.len(),
    {
        let t = trim_chars(line);
        if t.len() == 0 || starts_with_str(&t, "//") || starts_with_str(&t, "#") {
            return Some(None);
        }
        let code = Self::without_comment(&t);
        if code.len() == 0 {
            return Some(None);
        }
        let low = to_lowercase(&code);
        if starts_with_str(&low, "if ") {
            if let Some(k) = find_str(&low, " then ") {
                proof {
                    lemma_find_bounds(low@, " then "@);
                }
                let b = byte_len_prefix(&low, k);
                let j3 = char_at_byte_exec(&code, 3);
                let jt = char_at_byte_exec(&code, b);
                let j6 = char_at_byte_exec(&code, b + 6);
                if b < 3 {
                    return None;
                }
                match (j3, jt, j6) {
                    (Some(j3), Some(jt), Some(j6)) => {
                        proof {
                            lemma_char_at_byte_monotonic(code@, 3, b as int);
                            lemma_char_at_byte_bounds(code@, b as int);
                            lemma_char_at_byte_bounds(code@, b + 6);
                        }
                        let cond = trim_chars(&slice_chars(&code, j3, jt));
                        let then_part = trim_chars(&slice_chars(&code, j6, code.len()));
                        match Self::parse_condition(&cond) {
                            Some((tray, op, target_val)) => {
                                proof {
                                    lemma_line_shrinks(line@, b + 6);
                                }
                                match Self::line(&then_part) {
                                    None => {
                                        return None;
                                    },
                                    Some(Some(ti)) => {
                                        return Some(
                                            Some(
                                                Instruction::InlineIf {
                                                    tray,
                                                    op,
                                                    target_val,
                                                    then_inst: Box::new(ti),
                                                },
                                            ),
                                        );
                                    },
                                    Some(None) => {},
                                }
                            },
                            None => {},
                        }
                    },
                    _ => {
                        return None;
                    },
                }
            }
        }
        Self::plain_line(&code, &low)
    }

    /// Reads one line of FAL source. `Some(None)`: the line holds no instruction
    /// (blank, comment, or not understood); `Some(Some(i))`: instruction `i`;
    /// `None`: a line on which reading would slice text inside a character or
    /// before the start of a range (see [`line_meaning`]).
    pub fn try_parse_line(line: &str) -> (r: Option<Option<Instruction>>)
        ensures
            r is None <==> line_meaning(line@) is None,
            r matches Some(x) ==> line_meaning(line@) == Some(opt_model(x)),
    {
        let chars = chars_of(line);
        match Self::line(&chars) {
            Some(_) => Some(Self::parse_line(line)),
            None => None,
        }
    }

    /// Reads one line of FAL source into an instruction, or `None` for a line
    /// that holds none or cannot be read (see [`Parser::try_parse_line`], which
    /// tells the two apart).
    pub fn parse_line(line: &str) -> (r: Option<Instruction>)
        ensures
            line_meaning(line@) matches Some(m) ==> m == opt_model(r),
            line_meaning(line@) is None ==> r is None,
    {
        let chars = chars_of(line);
        match Self::line(&chars) {
            Some(r) => r,
            None => None,
        }
    }
}

} // verus!

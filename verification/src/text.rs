//! Text of messages.
use crate::ir::value::ConstValue;
use crate::ir::variable::SsaVarId;
use vstd::prelude::*;
use vstd::string::StringExecFns;

verus! {

/// The digit of a number below ten.
pub open spec fn digit(d: nat) -> Seq<char> {
    if d == 0 {
        "0"@
    } else if d == 1 {
        "1"@
    } else if d == 2 {
        "2"@
    } else if d == 3 {
        "3"@
    } else if d == 4 {
        "4"@
    } else if d == 5 {
        "5"@
    } else if d == 6 {
        "6"@
    } else if d == 7 {
        "7"@
    } else if d == 8 {
        "8"@
    } else {
        "9"@
    }
}

/// A number in decimal.
pub open spec fn decimal(n: nat) -> Seq<char>
    decreases n,
{
    if n < 10 {
        digit(n)
    } else {
        decimal(n / 10) + digit(n % 10)
    }
}

/// An integer in decimal, with a sign where it is negative.
pub open spec fn signed_decimal(n: int) -> Seq<char> {
    if n < 0 {
        "-"@ + decimal((-n) as nat)
    } else {
        decimal(n as nat)
    }
}

/// The name of a variable.
pub open spec fn var_name(v: SsaVarId) -> Seq<char> {
    "v"@ + decimal(v.0 as nat)
}

/// A variable in diagnostic form.
pub open spec fn var_debug(v: SsaVarId) -> Seq<char> {
    "SsaVarId("@ + decimal(v.0 as nat) + ")"@
}

/// The first `n` entries of a list of numbers, separated by commas.
pub open spec fn number_items(list: Seq<usize>, n: nat) -> Seq<char>
    decreases n,
{
    if n == 0 {
        Seq::empty()
    } else if n == 1 {
        decimal(list[0] as nat)
    } else {
        number_items(list, (n - 1) as nat) + ", "@ + decimal(list[n - 1] as nat)
    }
}

/// A list of numbers in diagnostic form.
pub open spec fn number_list(list: Seq<usize>) -> Seq<char> {
    "["@ + number_items(list, list.len()) + "]"@
}

/// The first `n` entries of a list of variables, separated by commas.
pub open spec fn var_items(list: Seq<SsaVarId>, n: nat) -> Seq<char>
    decreases n,
{
    if n == 0 {
        Seq::empty()
    } else if n == 1 {
        var_debug(list[0])
    } else {
        var_items(list, (n - 1) as nat) + ", "@ + var_debug(list[n - 1])
    }
}

/// A list of variables in diagnostic form.
pub open spec fn var_list(list: Seq<SsaVarId>) -> Seq<char> {
    "["@ + var_items(list, list.len()) + "]"@
}

/// The name of a truth value.
pub open spec fn bool_name(b: bool) -> Seq<char> {
    if b {
        "true"@
    } else {
        "false"@
    }
}

/// A constant in diagnostic form.
pub open spec fn const_debug(c: ConstValue) -> Seq<char> {
    match c {
        ConstValue::I8(v) => "I8("@ + signed_decimal(v as int) + ")"@,
        ConstValue::I16(v) => "I16("@ + signed_decimal(v as int) + ")"@,
        ConstValue::I32(v) => "I32("@ + signed_decimal(v as int) + ")"@,
        ConstValue::I64(v) => "I64("@ + signed_decimal(v as int) + ")"@,
        ConstValue::U8(v) => "U8("@ + signed_decimal(v as int) + ")"@,
        ConstValue::U16(v) => "U16("@ + signed_decimal(v as int) + ")"@,
        ConstValue::U32(v) => "U32("@ + signed_decimal(v as int) + ")"@,
        ConstValue::U64(v) => "U64("@ + signed_decimal(v as int) + ")"@,
        ConstValue::NativeInt(v) => "NativeInt("@ + signed_decimal(v as int) + ")"@,
        ConstValue::NativeUInt(v) => "NativeUInt("@ + signed_decimal(v as int) + ")"@,
        ConstValue::Null => "Null"@,
        ConstValue::True => "True"@,
        ConstValue::False => "False"@,
    }
}

/// Appends a number in decimal.
pub fn push_decimal(text: &mut String, n: u64)
    ensures
        final(text)@ == old(text)@ + decimal(n as nat),
    decreases n,
{
    if n >= 10 {
        push_decimal(text, n / 10);
    }
    let d: u64 = n % 10;
    if d == 0 {
        text.append("0");
    } else if d == 1 {
        text.append("1");
    } else if d == 2 {
        text.append("2");
    } else if d == 3 {
        text.append("3");
    } else if d == 4 {
        text.append("4");
    } else if d == 5 {
        text.append("5");
    } else if d == 6 {
        text.append("6");
    } else if d == 7 {
        text.append("7");
    } else if d == 8 {
        text.append("8");
    } else {
        text.append("9");
    }
    assert(text@ =~= old(text)@ + decimal(n as nat));
}

/// Appends a number in decimal.
pub fn push_number(text: &mut String, n: usize)
    ensures
        final(text)@ == old(text)@ + decimal(n as nat),
{
    push_decimal(text, n as u64);
}

/// Appends a signed number in decimal.
pub fn push_signed(text: &mut String, n: i64)
    ensures
        final(text)@ == old(text)@ + signed_decimal(n as int),
{
    if n < 0 {
        text.append("-");
        let magnitude: u64 = (-(n as i128)) as u64;
        push_decimal(text, magnitude);
        assert(text@ =~= old(text)@ + signed_decimal(n as int));
    } else {
        push_decimal(text, n as u64);
    }
}

/// Appends the name of a variable.
pub fn push_var(text: &mut String, v: SsaVarId)
    ensures
        final(text)@ == old(text)@ + var_name(v),
{
    text.append("v");
    push_number(text, v.0);
    assert(text@ =~= old(text)@ + var_name(v));
}

/// Appends a variable in diagnostic form.
pub fn push_var_debug(text: &mut String, v: SsaVarId)
    ensures
        final(text)@ == old(text)@ + var_debug(v),
{
    text.append("SsaVarId(");
    push_number(text, v.0);
    text.append(")");
    assert(text@ =~= old(text)@ + var_debug(v));
}

/// Appends a list of numbers in diagnostic form.
pub fn push_number_list(text: &mut String, list: &Vec<usize>)
    ensures
        final(text)@ == old(text)@ + number_list(list@),
{
    text.append("[");
    let mut i: usize = 0;
    while i < list.len()
        invariant
            i <= list@.len(),
            text@ =~= old(text)@ + "["@ + number_items(list@, i as nat),
        decreases list@.len() - i,
    {
        if i > 0 {
            text.append(", ");
        }
        push_number(text, list[i]);
        i = i + 1;
    }
    text.append("]");
    assert(text@ =~= old(text)@ + number_list(list@));
}

/// Appends a list of variables in diagnostic form.
pub fn push_var_list(text: &mut String, list: &Vec<SsaVarId>)
    ensures
        final(text)@ == old(text)@ + var_list(list@),
{
    text.append("[");
    let mut i: usize = 0;
    while i < list.len()
        invariant
            i <= list@.len(),
            text@ =~= old(text)@ + "["@ + var_items(list@, i as nat),
        decreases list@.len() - i,
    {
        if i > 0 {
            text.append(", ");
        }
        push_var_debug(text, list[i]);
        i = i + 1;
    }
    text.append("]");
    assert(text@ =~= old(text)@ + var_list(list@));
}

/// Appends the name of a truth value.
pub fn push_bool(text: &mut String, b: bool)
    ensures
        final(text)@ == old(text)@ + bool_name(b),
{
    if b {
        text.append("true");
    } else {
        text.append("false");
    }
}

/// Appends a constant in diagnostic form.
pub fn push_const_debug(text: &mut String, c: ConstValue)
    ensures
        final(text)@ == old(text)@ + const_debug(c),
{
    match c {
        ConstValue::Null => {
            text.append("Null");
            return ;
        },
        ConstValue::True => {
            text.append("True");
            return ;
        },
        ConstValue::False => {
            text.append("False");
            return ;
        },
        _ => {},
    }
    match c {
        ConstValue::I8(v) => {
            text.append("I8(");
            push_signed(text, v as i64);
        },
        ConstValue::I16(v) => {
            text.append("I16(");
            push_signed(text, v as i64);
        },
        ConstValue::I32(v) => {
            text.append("I32(");
            push_signed(text, v as i64);
        },
        ConstValue::I64(v) => {
            text.append("I64(");
            push_signed(text, v);
        },
        ConstValue::U8(v) => {
            text.append("U8(");
            push_decimal(text, v as u64);
        },
        ConstValue::U16(v) => {
            text.append("U16(");
            push_decimal(text, v as u64);
        },
        ConstValue::U32(v) => {
            text.append("U32(");
            push_decimal(text, v as u64);
        },
        ConstValue::U64(v) => {
            text.append("U64(");
            push_decimal(text, v);
        },
        ConstValue::NativeInt(v) => {
            text.append("NativeInt(");
            push_signed(text, v);
        },
        ConstValue::NativeUInt(v) => {
            text.append("NativeUInt(");
            push_decimal(text, v);
        },
        _ => {},
    }
    text.append(")");
    assert(text@ =~= old(text)@ + const_debug(c));
}

} // verus!

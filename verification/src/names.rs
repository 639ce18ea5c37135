//! Names: the labels of Cranelift blocks and the identifiers pliron accepts.
use cranelift_codegen::ir::Block;
use pliron::identifier::Identifier;
use pliron::result::Error as PlironError;
use vstd::prelude::*;

verus! {

#[verifier::external_type_specification]
#[verifier::external_body]
pub struct ExIdentifier(Identifier);

#[verifier::external_type_specification]
#[verifier::external_body]
pub struct ExPlironError(PlironError);

/// The character of decimal digit `d`.
pub open spec fn digit_char(d: nat) -> char {
    (48 + d) as char
}

/// The decimal representation of `n`, without leading zeros.
pub open spec fn decimal(n: nat) -> Seq<char>
    decreases n,
{
    if n < 10 {
        seq![digit_char(n)]
    } else {
        decimal(n / 10).push(digit_char(n % 10))
    }
}

/// The label Cranelift displays for block number `b`: `block` followed by `b` in decimal.
pub open spec fn block_label_spec(b: nat) -> Seq<char> {
    "block"@ + decimal(b)
}

/// `c` is an ASCII letter.
pub open spec fn is_ascii_alpha(c: char) -> bool {
    (65 <= (c as u32) <= 90) || (97 <= (c as u32) <= 122)
}

/// `c` is an ASCII decimal digit.
pub open spec fn is_ascii_digit(c: char) -> bool {
    48 <= (c as u32) <= 57
}

/// `s` matches `[a-zA-Z_][a-zA-Z0-9_]*`, the identifiers pliron accepts.
pub open spec fn is_identifier(s: Seq<char>) -> bool {
    &&& s.len() > 0
    &&& is_ascii_alpha(s[0]) || s[0] == '_'
    &&& forall|i: int|
        1 <= i < s.len() ==> is_ascii_alpha(#[trigger] s[i]) || is_ascii_digit(s[i]) || s[i] == '_'
}

/// Every character of `decimal(n)` is a decimal digit.
proof fn lemma_decimal_digits(n: nat)
    ensures
        decimal(n).len() > 0,
        forall|i: int| 0 <= i < decimal(n).len() ==> is_ascii_digit(#[trigger] decimal(n)[i]),
    decreases n,
{
    if n >= 10 {
        lemma_decimal_digits(n / 10);
        assert forall|i: int| 0 <= i < decimal(n).len() implies is_ascii_digit(#[trigger] decimal(n)[i]) by {
            if i < decimal(n / 10).len() {
                assert(decimal(n)[i] == decimal(n / 10)[i]);
            }
        }
    }
}

/// A block label is an identifier.
pub proof fn lemma_block_label_is_identifier(b: nat)
    ensures
        is_identifier(block_label_spec(b)),
{
    reveal_strlit("block");
    lemma_decimal_digits(b);
    let s = block_label_spec(b);
    assert(s[0] == 'b');
    assert forall|i: int| 1 <= i < s.len() implies is_ascii_alpha(#[trigger] s[i]) || is_ascii_digit(s[i])
        || s[i] == '_' by {
        if i >= 5 {
            assert(s[i] == decimal(b)[i - 5]);
        }
    }
}

/// `format!("{}", Block::from_u32(block))`: Cranelift displays a block reference as
/// `block` followed by its number in decimal.
#[verifier::external_body]
pub(crate) fn block_label(block: u32) -> (s: String)
    requires
        block < u32::MAX,
    ensures
        s@ == block_label_spec(block as nat),
{
    format!("{}", Block::from_u32(block))
}

/// `pliron::identifier::Identifier::try_new`: succeeds exactly when the string matches
/// `[a-zA-Z_][a-zA-Z0-9_]*`.
#[verifier::external_body]
pub(crate) fn identifier_try_new(value: &String) -> (r: Result<Identifier, PlironError>)
    ensures
        r is Ok <==> is_identifier(value@),
{
    Identifier::try_new(value.clone())
}

} // verus!

//! Content-addressed identities and account-id validation.
use vstd::prelude::*;
use vstd::utf8::encode_utf8;

verus! {

/// The SHA-256 digest of a byte sequence.
pub uninterp spec fn sha256_of(bytes: Seq<u8>) -> Seq<u8>;

/// Relies on near_sdk::env::sha256_array: the SHA-256 digest of the bytes,
/// a function of the bytes alone.
#[verifier::external_body]
fn sha256(bytes: &[u8]) -> (r: [u8; 32])
    ensures
        r@ == sha256_of(bytes@),
{
    near_sdk::env::sha256_array(bytes)
}

/// A byte that separates the parts of an account id.
pub open spec fn is_separator(b: u8) -> bool {
    b == 45 || b == 95 || b == 46
}

/// A byte that may stand in an account id: `a-z`, `0-9`, `-`, `_` or `.`.
pub open spec fn is_account_byte(b: u8) -> bool {
    (97 <= b <= 122) || (48 <= b <= 57) || is_separator(b)
}

/// A well-formed account id: 2 to 64 bytes of `a-z`, `0-9` and separators,
/// neither starting nor ending with a separator, with no two separators in a row.
pub open spec fn valid_account_id(s: Seq<u8>) -> bool {
    &&& 2 <= s.len() <= 64
    &&& forall|i: int| 0 <= i < s.len() ==> is_account_byte(#[trigger] s[i])
    &&& !is_separator(s[0])
    &&& !is_separator(s[s.len() - 1])
    &&& forall|i: int| 0 <= i < s.len() - 1 ==> !(is_separator(#[trigger] s[i]) && is_separator(s[i + 1]))
}

/// Relies on near_sdk::env::is_valid_account_id, which checks the length
/// bounds and scans the bytes once, rejecting a leading, trailing or doubled
/// separator.
#[verifier::external_body]
fn account_id_is_valid(bytes: &[u8]) -> (r: bool)
    ensures
        r == valid_account_id(bytes@),
{
    near_sdk::env::is_valid_account_id(bytes)
}

/// Whether `account` is a well-formed account id.
pub fn is_valid_account(account: &String) -> (r: bool)
    ensures
        r == valid_account_id(encode_utf8(account@)),
{
    account_id_is_valid(account.as_str().as_bytes())
}

/// The text that a content identity is the digest of: initiator, title,
/// description and link, with a missing field taken as empty.
pub open spec fn identity_text(
    initiator: Seq<char>,
    title: Seq<char>,
    desc: Option<Seq<char>>,
    link: Option<Seq<char>>,
) -> Seq<char> {
    initiator + title + desc.unwrap_or(Seq::empty()) + link.unwrap_or(Seq::empty())
}

/// The identity of a proposal or item with the given content.
pub open spec fn content_id(
    initiator: Seq<char>,
    title: Seq<char>,
    desc: Option<Seq<char>>,
    link: Option<Seq<char>>,
) -> Seq<u8> {
    sha256_of(encode_utf8(identity_text(initiator, title, desc, link)))
}

pub open spec fn opt_view(s: Option<String>) -> Option<Seq<char>> {
    match s {
        Some(s) => Some(s@),
        None => None,
    }
}

/// Derives the identity of the content (initiator, title, desc, link).
pub fn get_content_id(
    initiator: &String,
    title: &String,
    desc: &Option<String>,
    link: &Option<String>,
) -> (r: [u8; 32])
    ensures
        r@ == content_id(initiator@, title@, opt_view(*desc), opt_view(*link)),
{
    let mut text = initiator.clone();
    text.append(title.as_str());
    match desc {
        Some(d) => text.append(d.as_str()),
        None => {},
    }
    match link {
        Some(l) => text.append(l.as_str()),
        None => {},
    }
    proof {
        assert(text@ =~= identity_text(initiator@, title@, opt_view(*desc), opt_view(*link)));
    }
    sha256(text.as_str().as_bytes())
}

} // verus!

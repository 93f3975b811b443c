//! The fetch-and-parse side of a message read: decoding the fetched bytes,
//! reading MIME-style headers out of them, parsing the `Date` header's
//! instant, and rendering the header digest a read returns.
//!
//! The header parser and the date parser are outside collaborators; their
//! results are named here and everything after them is specified exactly
//! over those names.

use vstd::prelude::*;
use vstd::utf8::decode_utf8;
use vstd::utf8::valid_utf8;

verus! {

/// The ordered header list the mail parser reads from `bytes`, each header
/// as its decoded key and its unfolded value; `None` when the parser rejects
/// the bytes. A function of the bytes alone.
pub uninterp spec fn parsed_headers(bytes: Seq<u8>) -> Option<Seq<(Seq<char>, Seq<char>)>>;

/// The instant the date parser reads from `s` under the fixed mail-date
/// pattern (weekday, day month year hour:minute:second, anything after the
/// seconds ignored), as seconds and nanoseconds since the epoch; `None` when
/// `s` does not match the pattern. A function of the string alone.
pub uninterp spec fn parsed_date(s: Seq<char>) -> Option<(i64, i32)>;

/// Relies on mailparse::parse_mail, MailHeader::get_key and
/// MailHeader::get_value: the top-level headers of the message in `bytes`,
/// in order, or `None` when parsing fails; the outcome depends on the bytes
/// alone.
#[verifier::external_body]
pub(crate) fn parse_headers(bytes: &[u8]) -> (r: Option<Vec<(String, String)>>)
    ensures
        r.deep_view() == parsed_headers(bytes@),
{
    match mailparse::parse_mail(bytes) {
        Ok(parsed) => Some(
            parsed.headers.iter().map(|h| (h.get_key(), h.get_value())).collect(),
        ),
        Err(_) => None,
    }
}

/// Relies on time::strptime with the pattern `%a, %d %b %Y %H:%M:%S` and on
/// time::Tm::to_timespec: the instant parsed from `s`, or `None` when `s`
/// does not match; the outcome depends on the string alone.
#[verifier::external_body]
pub(crate) fn parse_mail_date(s: &str) -> (r: Option<(i64, i32)>)
    ensures
        r == parsed_date(s@),
{
    match time::strptime(s, "%a, %d %b %Y %H:%M:%S") {
        Ok(tm) => {
            let ts = tm.to_timespec();
            Some((ts.sec, ts.nsec))
        },
        Err(_) => None,
    }
}

/// Relies on std::str::from_utf8: it accepts exactly valid UTF-8 and hands
/// back the characters those bytes encode. Invalid bytes decode to the empty
/// string, the best effort the design asks for.
#[verifier::external_body]
pub(crate) fn decode_text(bytes: &[u8]) -> (r: String)
    ensures
        valid_utf8(bytes@) ==> r@ == decode_utf8(bytes@),
        !valid_utf8(bytes@) ==> r@ == Seq::<char>::empty(),
{
    match std::str::from_utf8(bytes) {
        Ok(s) => s.to_string(),
        Err(_) => String::new(),
    }
}

/// The key of the header whose value becomes the message's new name.
pub open spec fn subject_key() -> Seq<char> {
    seq!['S', 'u', 'b', 'j', 'e', 'c', 't']
}

/// The key of the header naming the sender.
pub open spec fn from_key() -> Seq<char> {
    seq!['F', 'r', 'o', 'm']
}

/// The key of the header carrying the message's date.
pub open spec fn date_key() -> Seq<char> {
    seq!['D', 'a', 't', 'e']
}

/// Whether a header key is one of the three the digest renders.
pub open spec fn special_key(k: Seq<char>) -> bool {
    k == subject_key() || k == from_key() || k == date_key()
}

/// One rendered digest line: `key: value` and a line break.
pub open spec fn header_line(k: Seq<char>, v: Seq<char>) -> Seq<char> {
    k + seq![':', ' '] + v + seq!['\n']
}

/// The digest a read returns: the `Subject`, `From` and `Date` headers in
/// header order, each rendered as a `key: value` line; nothing else.
pub open spec fn digest_of(hs: Seq<(Seq<char>, Seq<char>)>) -> Seq<char>
    decreases hs.len(),
{
    if hs.len() == 0 {
        Seq::empty()
    } else if special_key(hs[0].0) {
        header_line(hs[0].0, hs[0].1) + digest_of(hs.skip(1))
    } else {
        digest_of(hs.skip(1))
    }
}

/// The value of the last header under `key`, if any header carries it.
pub open spec fn last_value_of(hs: Seq<(Seq<char>, Seq<char>)>, key: Seq<char>) -> Option<
    Seq<char>,
>
    decreases hs.len(),
{
    if hs.len() == 0 {
        None
    } else if hs.last().0 == key {
        Some(hs.last().1)
    } else {
        last_value_of(hs.drop_last(), key)
    }
}

/// The instant of the last `Date` header whose value the date parser
/// accepts, if any does.
pub open spec fn last_date_instant(hs: Seq<(Seq<char>, Seq<char>)>) -> Option<(i64, i32)>
    decreases hs.len(),
{
    if hs.len() == 0 {
        None
    } else if hs.last().0 == date_key() && parsed_date(hs.last().1) is Some {
        parsed_date(hs.last().1)
    } else {
        last_date_instant(hs.drop_last())
    }
}

/// Rendering one more header extends the digest by that header's line when
/// its key is one of the three rendered, and by nothing otherwise.
pub proof fn lemma_digest_push(hs: Seq<(Seq<char>, Seq<char>)>, x: (Seq<char>, Seq<char>))
    ensures
        digest_of(hs.push(x)) == if special_key(x.0) {
            digest_of(hs) + header_line(x.0, x.1)
        } else {
            digest_of(hs)
        },
    decreases hs.len(),
{
    if hs.len() == 0 {
        assert(hs.push(x)[0] == x);
        assert(hs.push(x).skip(1) =~= Seq::<(Seq<char>, Seq<char>)>::empty());
        assert(digest_of(Seq::<(Seq<char>, Seq<char>)>::empty()) == Seq::<char>::empty());
        assert(hs =~= Seq::<(Seq<char>, Seq<char>)>::empty());
        if special_key(x.0) {
            assert(digest_of(hs.push(x)) =~= digest_of(hs) + header_line(x.0, x.1));
        }
    } else {
        assert(hs.push(x)[0] == hs[0]);
        assert(hs.push(x).skip(1) =~= hs.skip(1).push(x));
        lemma_digest_push(hs.skip(1), x);
        if special_key(hs[0].0) {
            if special_key(x.0) {
                assert(header_line(hs[0].0, hs[0].1) + (digest_of(hs.skip(1)) + header_line(
                    x.0,
                    x.1,
                )) =~= (header_line(hs[0].0, hs[0].1) + digest_of(hs.skip(1))) + header_line(
                    x.0,
                    x.1,
                ));
            }
        }
    }
}

/// The subject key as a string value.
pub(crate) fn subject_literal() -> (s: String)
    ensures
        s@ == subject_key(),
{
    let s = String::from_str("Subject");
    proof {
        reveal_strlit("Subject");
        assert(s@ =~= subject_key());
    }
    s
}

/// The sender key as a string value.
pub(crate) fn from_literal() -> (s: String)
    ensures
        s@ == from_key(),
{
    let s = String::from_str("From");
    proof {
        reveal_strlit("From");
        assert(s@ =~= from_key());
    }
    s
}

/// The date key as a string value.
pub(crate) fn date_literal() -> (s: String)
    ensures
        s@ == date_key(),
{
    let s = String::from_str("Date");
    proof {
        reveal_strlit("Date");
        assert(s@ =~= date_key());
    }
    s
}

} // verus!

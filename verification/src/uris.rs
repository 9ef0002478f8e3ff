//! Source references. A filesystem source is referred to by an
//! `obsidian://open?path=` URI with the percent-encoded path; an in-memory
//! text source by a `data:` URI carrying its own content, base64-encoded.
//! Looking a `path` query parameter up in a reference is how link metadata
//! is read; the URL parsing itself is the `url` crate's.

use vstd::prelude::*;
use vstd::utf8::encode_utf8;

use crate::markdown::{find_char_at, lemma_find_char_at, obsidian_prefix, obsidian_url};
use crate::strutil::{chars_to_string, push_char, str_to_chars};

verus! {

// ---------------------------------------------------------------------------
// Percent encoding
// ---------------------------------------------------------------------------

/// Bytes that percent encoding keeps: ASCII alphanumerics and `- . _ ~`.
pub open spec fn is_url_safe_byte(b: u8) -> bool {
    (48 <= b && b <= 57) || (65 <= b && b <= 90) || (97 <= b && b <= 122) || b == 45 || b == 46
        || b == 95 || b == 126
}

/// The uppercase hex digit for a value below sixteen.
pub open spec fn hex_digit(d: u8) -> char {
    if d < 10 {
        ((48 + d) as u8) as char
    } else {
        ((55 + d) as u8) as char
    }
}

/// The percent encoding of `bs`: safe bytes stand as they are, every other
/// byte becomes `%` and two uppercase hex digits.
pub open spec fn percent_encoded(bs: Seq<u8>) -> Seq<char>
    decreases bs.len(),
{
    if bs.len() == 0 {
        Seq::empty()
    } else {
        percent_encoded(bs.drop_last()) + (if is_url_safe_byte(bs.last()) {
            seq![bs.last() as char]
        } else {
            seq!['%', hex_digit(bs.last() / 16), hex_digit(bs.last() % 16)]
        })
    }
}

/// Relies on `urlencoding::encode`: every byte of the UTF-8 form except
/// ASCII alphanumerics and `-`, `.`, `_`, `~` becomes `%` and two uppercase
/// hex digits; the rest stand as they are.
#[verifier::external_body]
fn percent_encode(s: &str) -> (r: String)
    ensures
        r@ == percent_encoded(encode_utf8(s@)),
{
    urlencoding::encode(s).into_owned()
}

/// The reference of a filesystem source with this path.
pub open spec fn file_uri_of(path: Seq<char>) -> Seq<char> {
    obsidian_prefix() + percent_encoded(encode_utf8(path))
}

/// The `obsidian://open?path=` reference of a filesystem source, its path
/// percent-encoded.
pub fn file_uri(path: &str) -> (r: String)
    ensures
        r@ == file_uri_of(path@),
{
    let encoded = percent_encode(path);
    let chars = str_to_chars(encoded.as_str());
    let uri = obsidian_url(chars);
    chars_to_string(&uri)
}

// ---------------------------------------------------------------------------
// Base64 data URIs
// ---------------------------------------------------------------------------

/// What base64's URL-safe unpadded engine encodes the bytes to.
pub uninterp spec fn b64url_of(bytes: Seq<u8>) -> Seq<char>;

/// Relies on base64's `URL_SAFE_NO_PAD` engine: the encoding is a function
/// of the input bytes alone, and its unpadded length is documented as the
/// rounded-up four-thirds of the byte count.
#[verifier::external_body]
fn b64url_encode(s: &str) -> (r: String)
    ensures
        r@ == b64url_of(encode_utf8(s@)),
        r@.len() == (encode_utf8(s@).len() * 4 + 2) / 3,
{
    base64::Engine::encode(&base64::engine::general_purpose::URL_SAFE_NO_PAD, s)
}

/// The prefix of the reference of an in-memory text source.
pub open spec fn data_prefix() -> Seq<char> {
    seq![
        'd', 'a', 't', 'a', ':', 't', 'e', 'x', 't', '/', 'p', 'l', 'a', 'i', 'n', ';', 'b', 'a',
        's', 'e', '6', '4', ',',
    ]
}

/// The reference of an in-memory text source with this content.
pub open spec fn data_uri_of(text: Seq<char>) -> Seq<char> {
    data_prefix() + b64url_of(encode_utf8(text))
}

/// The `data:text/plain;base64,` reference of an in-memory text source: its
/// identity is derived from its own content.
pub fn literal_uri(text: &str) -> (r: String)
    ensures
        r@ == data_uri_of(text@),
{
    let mut r = String::new();
    push_char(&mut r, 'd');
    push_char(&mut r, 'a');
    push_char(&mut r, 't');
    push_char(&mut r, 'a');
    push_char(&mut r, ':');
    push_char(&mut r, 't');
    push_char(&mut r, 'e');
    push_char(&mut r, 'x');
    push_char(&mut r, 't');
    push_char(&mut r, '/');
    push_char(&mut r, 'p');
    push_char(&mut r, 'l');
    push_char(&mut r, 'a');
    push_char(&mut r, 'i');
    push_char(&mut r, 'n');
    push_char(&mut r, ';');
    push_char(&mut r, 'b');
    push_char(&mut r, 'a');
    push_char(&mut r, 's');
    push_char(&mut r, 'e');
    push_char(&mut r, '6');
    push_char(&mut r, '4');
    push_char(&mut r, ',');
    proof {
        assert(r@ =~= data_prefix());
    }
    let encoded = b64url_encode(text);
    let r = r.concat(encoded.as_str());
    r
}

// ---------------------------------------------------------------------------
// Query parameters of a reference
// ---------------------------------------------------------------------------

/// What `url::Url::parse` and `Url::query_pairs` yield for a string: `None`
/// when it does not parse as an absolute URL, else its decoded query pairs
/// flattened in order, each key directly followed by its value.
pub uninterp spec fn url_query_kv(s: Seq<char>) -> Option<Seq<Seq<char>>>;

pub open spec fn kv_view(r: &Option<Vec<String>>) -> Option<Seq<Seq<char>>> {
    match r {
        Some(v) => Some(v.deep_view()),
        None => None,
    }
}

/// Relies on `url::Url::parse` and `Url::query_pairs`: whether a string
/// parses as an absolute URL, and its decoded query pairs, are functions of
/// the string alone; each pair contributes its key and then its value.
#[verifier::external_body]
pub(crate) fn url_query_lookup(s: &str) -> (r: Option<Vec<String>>)
    ensures
        kv_view(&r) == url_query_kv(s@),
        r matches Some(v) ==> v@.len() % 2 == 0,
{
    match url::Url::parse(s) {
        Ok(u) => {
            let mut out = Vec::new();
            for (k, v) in u.query_pairs() {
                out.push(k.into_owned());
                out.push(v.into_owned());
            }
            Some(out)
        },
        Err(_) => None,
    }
}

/// The key a metadata pair is read from.
pub open spec fn key_path() -> Seq<char> {
    seq!['p', 'a', 't', 'h']
}

/// The least even index of a complete pair whose key is `path`, or the
/// length when there is none.
pub open spec fn first_path_at(kv: Seq<Seq<char>>, from: int) -> int
    decreases kv.len() - from,
{
    if from < 0 || from + 2 > kv.len() {
        kv.len() as int
    } else if kv[from] == key_path() {
        from
    } else {
        first_path_at(kv, from + 2)
    }
}

pub broadcast proof fn lemma_first_path_at(kv: Seq<Seq<char>>, from: int)
    ensures
        0 <= from <= kv.len() ==> {
            let r = #[trigger] first_path_at(kv, from);
            &&& from <= r <= kv.len()
            &&& r + 2 <= kv.len() ==> kv[r] == key_path()
        },
    decreases kv.len() - from,
{
    if 0 <= from && from + 2 <= kv.len() && kv[from] != key_path() {
        lemma_first_path_at(kv, from + 2);
    }
}

/// The value of the `path` query parameter among the flattened pairs:
/// `None` when the URL did not parse, `Some(None)` when no pair carries the
/// key.
pub open spec fn path_param_of(kv_opt: Option<Seq<Seq<char>>>) -> Option<Option<Seq<char>>> {
    match kv_opt {
        None => None,
        Some(kv) => {
            let k = first_path_at(kv, 0);
            if k + 2 <= kv.len() {
                Some(Some(kv[k + 1]))
            } else {
                Some(None)
            }
        },
    }
}

pub open spec fn opt_opt_view(r: &Option<Option<String>>) -> Option<Option<Seq<char>>> {
    match r {
        None => None,
        Some(None) => Some(None),
        Some(Some(s)) => Some(Some(s@)),
    }
}

/// The value of the `path` query parameter, computed from what the URL
/// lookup handed back.
pub fn path_param(kv_opt: &Option<Vec<String>>) -> (r: Option<Option<String>>)
    ensures
        opt_opt_view(&r) == path_param_of(kv_view(kv_opt)),
{
    broadcast use lemma_first_path_at;

    let kv = match kv_opt {
        None => {
            return None;
        },
        Some(kv) => kv,
    };
    let ghost kvv = kv.deep_view();
    let mut path_key = String::new();
    push_char(&mut path_key, 'p');
    push_char(&mut path_key, 'a');
    push_char(&mut path_key, 't');
    push_char(&mut path_key, 'h');
    proof {
        assert(path_key@ =~= key_path());
    }
    let n = kv.len();
    let mut i: usize = 0;
    while i < n && n - i >= 2
        invariant
            i <= n == kv@.len(),
            path_key@ == key_path(),
            kvv == kv.deep_view(),
            kv_view(kv_opt) == Some(kvv),
            i % 2 == 0,
            first_path_at(kvv, 0) == first_path_at(kvv, i as int),
        decreases n - i,
    {
        let hit = kv[i] == path_key;
        proof {
            assert(kvv[i as int] == kv@[i as int]@);
        }
        if hit {
            proof {
                assert(first_path_at(kvv, i as int) == i);
                assert(kvv[i + 1 as int] == kv@[i + 1 as int]@);
                assert(kvv.len() == kv@.len());
            }
            let v = kv[i + 1].clone();
            return Some(Some(v));
        }
        proof {
            assert(first_path_at(kvv, i as int) == first_path_at(kvv, i + 2 as int));
        }
        i += 2;
    }
    proof {
        assert(first_path_at(kvv, i as int) == kvv.len());
    }
    Some(None)
}

} // verus!

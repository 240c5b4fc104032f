//! Magnet links: `magnet:?k=v(&k=v)*`, parsed for their info hash, name, trackers and peers.
use vstd::prelude::*;
use vstd::utf8::{decode_utf8, encode_utf8, valid_utf8};

use crate::bencode::copy_range;
use crate::text::push_char;

verus! {

#[verifier::external_type_specification]
#[verifier::external_body]
pub struct ExUrl(reqwest::Url);

/// The `xt` topic of a magnet link, `urn:btih:<hex>`: the namespace and the hash.
pub struct InfoHash {
    pub urn: String,
    pub hash: String,
}

pub struct MagnetLink {
    pub info_hash: InfoHash,
    pub display_name: Option<String>,
    pub tracker_address: Vec<reqwest::Url>,
    pub peer_address: Vec<reqwest::Url>,
}

/// Why a magnet link cannot be read.
#[derive(Debug, Clone, Copy, PartialEq, Eq)]
pub enum MagnetError {
    /// There is no `?` before the parameters.
    MissingQuery,
    /// What stands before the `?` is not `magnet:`.
    NotMagnet,
    /// There is no `xt` parameter.
    MissingInfoHash,
    /// There is more than one `xt` parameter.
    RepeatedInfoHash,
    /// The `xt` parameter is not of the form `urn:btih:<hex>`.
    BadInfoHash,
}

// ---------------------------------------------------------------------------
// Outside calls
/// The absolute URL that `s` parses to, if any.
pub uninterp spec fn parsed_url(s: Seq<char>) -> Option<reqwest::Url>;

/// Relies on `url::Url::parse`, re-exported as `reqwest::Url::parse`: whether `s` parses,
/// and to which URL, depends on `s` alone.
#[verifier::external_body]
fn parse_url(s: &str) -> (r: Option<reqwest::Url>)
    ensures
        r == parsed_url(s@),
{
    reqwest::Url::parse(s).ok()
}

pub open spec fn is_hex_byte(b: u8) -> bool {
    (48 <= b <= 57) || (65 <= b <= 70) || (97 <= b <= 102)
}

pub open spec fn hex_byte_value(b: u8) -> int {
    if b <= 57 {
        b - 48
    } else if b <= 70 {
        b - 55
    } else {
        b - 87
    }
}

/// Percent-decoding of bytes: `%` and two hex digits become that byte; a `%` that two hex
/// digits do not follow stays as it is.
pub open spec fn percent_decode(b: Seq<u8>) -> Seq<u8>
    decreases b.len(),
{
    if b.len() == 0 {
        Seq::empty()
    } else if b[0] == 37 && b.len() >= 3 && is_hex_byte(b[1]) && is_hex_byte(b[2]) {
        seq![(hex_byte_value(b[1]) * 16 + hex_byte_value(b[2])) as u8] + percent_decode(
            b.subrange(3, b.len() as int),
        )
    } else if b[0] == 37 && b.len() >= 3 && is_hex_byte(b[1]) {
        seq![37u8, b[1]] + percent_decode(b.subrange(2, b.len() as int))
    } else {
        seq![b[0]] + percent_decode(b.drop_first())
    }
}

/// Relies on `urlencoding::decode`: the percent-decoded bytes of `s`, as text when they are
/// valid UTF-8.
#[verifier::external_body]
fn url_decode(s: &str) -> (r: Option<String>)
    ensures
        r is Some <==> valid_utf8(percent_decode(encode_utf8(s@))),
        r matches Some(t) ==> t@ == decode_utf8(percent_decode(encode_utf8(s@))),
{
    match urlencoding::decode(s) {
        Ok(t) => Some(t.into_owned()),
        Err(_) => None,
    }
}

/// Relies on `str::chars`: the characters of `s`.
#[verifier::external_body]
fn chars_of(s: &str) -> (r: Vec<char>)
    ensures
        r@ == s@,
{
    s.chars().collect()
}

// ---------------------------------------------------------------------------
// Splitting
/// Where `c` first occurs in `s`.
pub open spec fn find_char(s: Seq<char>, c: char) -> Option<int>
    decreases s.len(),
{
    if s.len() == 0 {
        None
    } else if s[0] == c {
        Some(0)
    } else {
        match find_char(s.drop_first(), c) {
            Some(i) => Some(i + 1),
            None => None,
        }
    }
}

/// The pieces of `s` between occurrences of `c`, as `str::split` gives them.
pub open spec fn split_on(s: Seq<char>, c: char) -> Seq<Seq<char>>
    decreases s.len(),
{
    match find_char(s, c) {
        Some(i) => if 0 <= i < s.len() {
            seq![s.subrange(0, i)] + split_on(s.subrange(i + 1, s.len() as int), c)
        } else {
            seq![s]
        },
        None => seq![s],
    }
}

/// A `name=value` parameter, split at its first `=`.
pub open spec fn param_of(part: Seq<char>) -> Option<(Seq<char>, Seq<char>)> {
    match find_char(part, '=') {
        Some(i) => if 0 <= i < part.len() {
            Some((part.subrange(0, i), part.subrange(i + 1, part.len() as int)))
        } else {
            None
        },
        None => None,
    }
}

/// The parameters among `parts`; a part without `=` is skipped.
pub open spec fn params_of(parts: Seq<Seq<char>>) -> Seq<(Seq<char>, Seq<char>)>
    decreases parts.len(),
{
    if parts.len() == 0 {
        Seq::empty()
    } else {
        params_of(parts.drop_last()) + match param_of(parts.last()) {
            Some(p) => seq![p],
            None => Seq::empty(),
        }
    }
}

/// The parameters of a magnet link; none where it does not start with `magnet:?`.
pub open spec fn link_params(link: Seq<char>) -> Option<Seq<(Seq<char>, Seq<char>)>> {
    match find_char(link, '?') {
        Some(i) => if 0 <= i < link.len() && link.subrange(0, i) == "magnet:"@ {
            Some(params_of(split_on(link.subrange(i + 1, link.len() as int), '&')))
        } else {
            None
        },
        None => None,
    }
}

/// The value of the first parameter named `key`.
pub open spec fn first_value(params: Seq<(Seq<char>, Seq<char>)>, key: Seq<char>) -> Option<
    Seq<char>,
>
    decreases params.len(),
{
    if params.len() == 0 {
        None
    } else {
        match first_value(params.drop_last(), key) {
            Some(v) => Some(v),
            None => if params.last().0 == key {
                Some(params.last().1)
            } else {
                None
            },
        }
    }
}

pub open spec fn is_hex_char(c: char) -> bool {
    ('0' <= c && c <= '9') || ('a' <= c && c <= 'f') || ('A' <= c && c <= 'F')
}

/// The hash of an `xt` value `urn:btih:<hex>`, where `<hex>` is one or more hex digits.
pub open spec fn topic_of(value: Seq<char>) -> Option<Seq<char>> {
    let parts = split_on(value, ':');
    if parts.len() == 3 && parts[0] == "urn"@ && parts[1] == "btih"@ && parts[2].len() > 0
        && forall|i: int| 0 <= i < parts[2].len() ==> is_hex_char(#[trigger] parts[2][i]) {
        Some(parts[2])
    } else {
        None
    }
}

/// How many parameters are named `key`.
pub open spec fn param_count(params: Seq<(Seq<char>, Seq<char>)>, key: Seq<char>) -> nat
    decreases params.len(),
{
    if params.len() == 0 {
        0
    } else {
        param_count(params.drop_last(), key) + if params.last().0 == key {
            1nat
        } else {
            0nat
        }
    }
}

/// The URL that a parameter value denotes once percent-decoded, if any.
pub open spec fn decoded_url(value: Seq<char>) -> Option<reqwest::Url> {
    let b = percent_decode(encode_utf8(value));
    if valid_utf8(b) {
        parsed_url(decode_utf8(b))
    } else {
        None
    }
}

/// The URLs of the parameters named `key`, in order; values that are no URL are left out.
pub open spec fn urls(params: Seq<(Seq<char>, Seq<char>)>, key: Seq<char>) -> Seq<reqwest::Url>
    decreases params.len(),
{
    if params.len() == 0 {
        Seq::empty()
    } else {
        urls(params.drop_last(), key) + match decoded_url(params.last().1) {
            Some(u) => if params.last().0 == key {
                seq![u]
            } else {
                Seq::empty()
            },
            None => Seq::empty(),
        }
    }
}

/// Why `link` is no magnet link this client reads; none where it is one.
pub open spec fn magnet_error(link: Seq<char>) -> Option<MagnetError> {
    match find_char(link, '?') {
        None => Some(MagnetError::MissingQuery),
        Some(i) => if !(0 <= i < link.len() && link.subrange(0, i) == "magnet:"@) {
            Some(MagnetError::NotMagnet)
        } else {
            let ps = params_of(split_on(link.subrange(i + 1, link.len() as int), '&'));
            let n = param_count(ps, "xt"@);
            if n == 0 {
                Some(MagnetError::MissingInfoHash)
            } else if n > 1 {
                Some(MagnetError::RepeatedInfoHash)
            } else {
                match first_value(ps, "xt"@) {
                    Some(v) => if topic_of(v) is Some {
                        None
                    } else {
                        Some(MagnetError::BadInfoHash)
                    },
                    None => Some(MagnetError::MissingInfoHash),
                }
            }
        },
    }
}

pub open spec fn option_view(o: Option<String>) -> Option<Seq<char>> {
    match o {
        Some(s) => Some(s@),
        None => None,
    }
}

/// `m` holds what `link` says.
pub open spec fn magnet_describes(link: Seq<char>, m: MagnetLink) -> bool {
    match link_params(link) {
        Some(ps) => {
            &&& m.info_hash.urn@ == "btih"@
            &&& match first_value(ps, "xt"@) {
                Some(v) => topic_of(v) == Some(m.info_hash.hash@),
                None => false,
            }
            &&& option_view(m.display_name) == first_value(ps, "dn"@)
            &&& m.tracker_address@ == urls(ps, "tr"@)
            &&& m.peer_address@ == urls(ps, "x.pe"@)
        },
        None => false,
    }
}

proof fn lemma_find_char(t: Seq<char>, c: char, i: int)
    requires
        0 <= i <= t.len(),
        forall|k: int| 0 <= k < i ==> t[k] != c,
        i < t.len() ==> t[i] == c,
    ensures
        find_char(t, c) == if i < t.len() {
            Some(i)
        } else {
            None::<int>
        },
    decreases i,
{
    if i > 0 {
        lemma_find_char(t.drop_first(), c, i - 1);
    }
}

/// The first occurrence of `c` in `s` at or after `from`.
fn find_from(s: &[char], from: usize, c: char) -> (r: Option<usize>)
    requires
        from <= s@.len(),
    ensures
        match find_char(s@.subrange(from as int, s@.len() as int), c) {
            Some(i) => r matches Some(j) && j == from + i,
            None => r is None,
        },
        r matches Some(j) ==> from <= j < s@.len() && s@[j as int] == c,
{
    let mut j: usize = from;
    while j < s.len()
        invariant
            from <= j <= s@.len(),
            forall|k: int| from <= k < j ==> s@[k] != c,
        decreases s@.len() - j,
    {
        if s[j] == c {
            proof {
                lemma_find_char(s@.subrange(from as int, s@.len() as int), c, j - from);
            }
            return Some(j);
        }
        j = j + 1;
    }
    proof {
        lemma_find_char(s@.subrange(from as int, s@.len() as int), c, j - from);
    }
    None
}

pub open spec fn piece_views(parts: Seq<Vec<char>>) -> Seq<Seq<char>> {
    Seq::new(parts.len(), |i: int| parts[i]@)
}

/// The pieces of `s[from..]` between occurrences of `c`.
fn split_chars(s: &[char], from: usize, c: char) -> (r: Vec<Vec<char>>)
    requires
        from <= s@.len(),
    ensures
        piece_views(r@) == split_on(s@.subrange(from as int, s@.len() as int), c),
{
    let mut r: Vec<Vec<char>> = Vec::new();
    let mut pos: usize = from;
    let n = s.len();
    loop
        invariant
            from <= pos <= s@.len(),
            s@.len() == n,
            split_on(s@.subrange(from as int, s@.len() as int), c) == piece_views(r@) + split_on(
                s@.subrange(pos as int, s@.len() as int),
                c,
            ),
        decreases s@.len() - pos,
    {
        let ghost rest = s@.subrange(pos as int, s@.len() as int);
        match find_from(s, pos, c) {
            Some(i) => {
                let piece = copy_range(s, pos, i);
                proof {
                    assert(find_char(rest, c) == Some(i - pos));
                    assert(split_on(rest, c) == seq![rest.subrange(0, i - pos)] + split_on(
                        rest.subrange(i - pos + 1, rest.len() as int),
                        c,
                    ));
                    assert(piece@ =~= rest.subrange(0, i - pos));
                    assert(rest.subrange(i - pos + 1, rest.len() as int) =~= s@.subrange(
                        i + 1,
                        s@.len() as int,
                    ));
                    assert(piece_views(r@.push(piece)) =~= piece_views(r@).push(piece@));
                    assert(piece_views(r@) + (seq![piece@] + split_on(
                        s@.subrange(i + 1, s@.len() as int),
                        c,
                    )) =~= piece_views(r@).push(piece@) + split_on(
                        s@.subrange(i + 1, s@.len() as int),
                        c,
                    ));
                }
                r.push(piece);
                pos = i + 1;
            },
            None => {
                let piece = copy_range(s, pos, s.len());
                proof {
                    assert(piece_views(r@.push(piece)) =~= piece_views(r@) + seq![rest]);
                }
                r.push(piece);
                return r;
            },
        }
    }
}

fn chars_equal(a: &[char], b: &[char]) -> (r: bool)
    ensures
        r == (a@ == b@),
{
    if a.len() != b.len() {
        return false;
    }
    let mut i: usize = 0;
    while i < a.len()
        invariant
            a@.len() == b@.len(),
            i <= a@.len(),
            a@.subrange(0, i as int) == b@.subrange(0, i as int),
        decreases a@.len() - i,
    {
        if a[i] != b[i] {
            assert(a@[i as int] != b@[i as int]);
            return false;
        }
        assert(a@.subrange(0, i + 1) =~= a@.subrange(0, i as int).push(a@[i as int]));
        assert(b@.subrange(0, i + 1) =~= b@.subrange(0, i as int).push(b@[i as int]));
        i = i + 1;
    }
    assert(a@ =~= a@.subrange(0, i as int));
    assert(b@ =~= b@.subrange(0, i as int));
    true
}

fn string_of(cs: &[char]) -> (r: String)
    ensures
        r@ == cs@,
{
    let mut s = String::new();
    let mut k: usize = 0;
    while k < cs.len()
        invariant
            k <= cs@.len(),
            s@ == cs@.subrange(0, k as int),
        decreases cs@.len() - k,
    {
        push_char(&mut s, cs[k]);
        k = k + 1;
        assert(s@ =~= cs@.subrange(0, k as int));
    }
    assert(cs@.subrange(0, k as int) =~= cs@);
    s
}

pub open spec fn param_views(ps: Seq<(Vec<char>, Vec<char>)>) -> Seq<(Seq<char>, Seq<char>)> {
    Seq::new(ps.len(), |i: int| (ps[i].0@, ps[i].1@))
}

/// The `name=value` parameters among the pieces.
fn params_from(parts: &Vec<Vec<char>>) -> (r: Vec<(Vec<char>, Vec<char>)>)
    ensures
        param_views(r@) == params_of(piece_views(parts@)),
{
    let mut r: Vec<(Vec<char>, Vec<char>)> = Vec::new();
    let mut k: usize = 0;
    while k < parts.len()
        invariant
            k <= parts@.len(),
            param_views(r@) == params_of(piece_views(parts@.subrange(0, k as int))),
        decreases parts@.len() - k,
    {
        let part = parts[k].as_slice();
        let _ = part.len();
        assert(part@.subrange(0, part@.len() as int) =~= part@);
        let ghost pv = piece_views(parts@.subrange(0, k + 1));
        assert(pv.drop_last() =~= piece_views(parts@.subrange(0, k as int)));
        assert(pv.last() == part@);
        match find_from(part, 0, '=') {
            Some(i) => {
                assert(find_char(part@, '=') == Some(i as int));
                let name = copy_range(part, 0, i);
                let value = copy_range(part, i + 1, part.len());
                assert(param_views(r@.push((name, value))) =~= param_views(r@).push(
                    (name@, value@),
                ));
                r.push((name, value));
            },
            None => {
                assert(params_of(pv) =~= params_of(pv.drop_last()));
            },
        }
        k = k + 1;
    }
    assert(parts@.subrange(0, k as int) =~= parts@);
    r
}

/// The value of the first parameter named `key`.
fn first_param<'a>(params: &'a Vec<(Vec<char>, Vec<char>)>, key: &[char]) -> (r: Option<&'a Vec<char>>)
    ensures
        match first_value(param_views(params@), key@) {
            Some(v) => r matches Some(x) && x@ == v,
            None => r is None,
        },
{
    let mut k: usize = 0;
    while k < params.len()
        invariant
            k <= params@.len(),
            first_value(param_views(params@.subrange(0, k as int)), key@) is None,
        decreases params@.len() - k,
    {
        let ghost pv = param_views(params@.subrange(0, k + 1));
        assert(pv.drop_last() =~= param_views(params@.subrange(0, k as int)));
        if chars_equal(params[k].0.as_slice(), key) {
            proof {
                assert(pv.last() == (params@[k as int].0@, params@[k as int].1@));
                assert(param_views(params@).subrange(0, k + 1) =~= pv);
                lemma_first_value_prefix(param_views(params@), k + 1, key@);
            }
            return Some(&params[k].1);
        }
        k = k + 1;
    }
    assert(params@.subrange(0, k as int) =~= params@);
    assert(param_views(params@.subrange(0, k as int)) =~= param_views(params@));
    None
}

/// A value found in a prefix is the first value of the whole.
proof fn lemma_first_value_prefix(ps: Seq<(Seq<char>, Seq<char>)>, n: int, key: Seq<char>)
    requires
        0 <= n <= ps.len(),
        first_value(ps.subrange(0, n), key) is Some,
    ensures
        first_value(ps, key) == first_value(ps.subrange(0, n), key),
    decreases ps.len() - n,
{
    if n < ps.len() {
        assert(ps.subrange(0, n + 1).drop_last() =~= ps.subrange(0, n));
        lemma_first_value_prefix(ps, n + 1, key);
    } else {
        assert(ps.subrange(0, n) =~= ps);
    }
}

/// The URLs among the parameters named `key`, percent-decoded.
fn urls_of(params: &Vec<(Vec<char>, Vec<char>)>, key: &[char]) -> (r: Vec<reqwest::Url>)
    ensures
        r@ == urls(param_views(params@), key@),
{
    let mut r: Vec<reqwest::Url> = Vec::new();
    let mut k: usize = 0;
    while k < params.len()
        invariant
            k <= params@.len(),
            r@ == urls(param_views(params@.subrange(0, k as int)), key@),
        decreases params@.len() - k,
    {
        let ghost pv = param_views(params@.subrange(0, k + 1));
        assert(pv.drop_last() =~= param_views(params@.subrange(0, k as int)));
        assert(pv.last() == (params@[k as int].0@, params@[k as int].1@));
        let ghost before = r@;
        if chars_equal(params[k].0.as_slice(), key) {
            let text = string_of(params[k].1.as_slice());
            if let Some(decoded) = url_decode(text.as_str()) {
                if let Some(url) = parse_url(decoded.as_str()) {
                    r.push(url);
                    assert(r@ =~= before + seq![url]);
                } else {
                    assert(r@ =~= before + Seq::<reqwest::Url>::empty());
                }
            } else {
                assert(r@ =~= before + Seq::<reqwest::Url>::empty());
            }
        } else {
            assert(r@ =~= before + Seq::<reqwest::Url>::empty());
        }
        k = k + 1;
    }
    assert(params@.subrange(0, k as int) =~= params@);
    assert(param_views(params@.subrange(0, k as int)) =~= param_views(params@));
    r
}

/// How many parameters are named `key`.
fn count_params(params: &Vec<(Vec<char>, Vec<char>)>, key: &[char]) -> (r: usize)
    ensures
        r == param_count(param_views(params@), key@),
{
    let mut r: usize = 0;
    let mut k: usize = 0;
    while k < params.len()
        invariant
            k <= params@.len(),
            r <= k,
            r == param_count(param_views(params@.subrange(0, k as int)), key@),
        decreases params@.len() - k,
    {
        let ghost pv = param_views(params@.subrange(0, k + 1));
        assert(pv.drop_last() =~= param_views(params@.subrange(0, k as int)));
        assert(pv.last() == (params@[k as int].0@, params@[k as int].1@));
        if chars_equal(params[k].0.as_slice(), key) {
            r = r + 1;
        }
        k = k + 1;
    }
    assert(params@.subrange(0, k as int) =~= params@);
    assert(param_views(params@.subrange(0, k as int)) =~= param_views(params@));
    r
}

fn all_hex(cs: &[char]) -> (r: bool)
    ensures
        r == forall|i: int| 0 <= i < cs@.len() ==> is_hex_char(#[trigger] cs@[i]),
{
    let mut k: usize = 0;
    while k < cs.len()
        invariant
            k <= cs@.len(),
            forall|i: int| 0 <= i < k ==> is_hex_char(#[trigger] cs@[i]),
        decreases cs@.len() - k,
    {
        let c = cs[k];
        if !(('0' <= c && c <= '9') || ('a' <= c && c <= 'f') || ('A' <= c && c <= 'F')) {
            return false;
        }
        k = k + 1;
    }
    true
}

impl MagnetLink {
    /// Reads a magnet link. `xt` must come once, as `urn:btih:<hex>`; `dn` is taken as it
    /// stands; `tr` and `x.pe` are percent-decoded, and those that are not URLs are left out.
    /// Other parameters are ignored.
    pub fn parse(link: &str) -> (r: Result<MagnetLink, MagnetError>)
        ensures
            match magnet_error(link@) {
                Some(e) => r matches Err(x) && x == e,
                None => r matches Ok(m) && magnet_describes(link@, m),
            },
    {
        let chars = chars_of(link);
        let s = chars.as_slice();
        let _ = s.len();
        assert(s@.subrange(0, s@.len() as int) =~= s@);
        let q = match find_from(s, 0, '?') {
            Some(q) => q,
            None => {
                return Err(MagnetError::MissingQuery);
            },
        };
        let prefix = copy_range(s, 0, q);
        let magnet = chars_of("magnet:");
        if !chars_equal(prefix.as_slice(), magnet.as_slice()) {
            return Err(MagnetError::NotMagnet);
        }
        let parts = split_chars(s, q + 1, '&');
        let params = params_from(&parts);
        let ghost ps = param_views(params@);
        assert(s@ == link@);
        assert(find_char(link@, '?') == Some(q as int));
        assert(link@.subrange(0, q as int) == "magnet:"@);
        assert(ps == params_of(split_on(link@.subrange(q + 1, link@.len() as int), '&')));
        assert(link_params(link@) == Some(ps));
        let xt = chars_of("xt");
        let n = count_params(&params, xt.as_slice());
        if n == 0 {
            return Err(MagnetError::MissingInfoHash);
        }
        if n > 1 {
            return Err(MagnetError::RepeatedInfoHash);
        }
        let value = match first_param(&params, xt.as_slice()) {
            Some(v) => v,
            None => {
                return Err(MagnetError::MissingInfoHash);
            },
        };
        let pieces = split_chars(value.as_slice(), 0, ':');
        assert(value@.subrange(0, value@.len() as int) =~= value@);
        let urn_word = chars_of("urn");
        let btih = chars_of("btih");
        if pieces.len() != 3 || !chars_equal(pieces[0].as_slice(), urn_word.as_slice())
            || !chars_equal(pieces[1].as_slice(), btih.as_slice()) || pieces[2].len() == 0
            || !all_hex(pieces[2].as_slice()) {
            return Err(MagnetError::BadInfoHash);
        }
        let info_hash = InfoHash {
            urn: string_of(pieces[1].as_slice()),
            hash: string_of(pieces[2].as_slice()),
        };
        let dn = chars_of("dn");
        let display_name = match first_param(&params, dn.as_slice()) {
            Some(v) => Some(string_of(v.as_slice())),
            None => None,
        };
        let tr = chars_of("tr");
        let pe = chars_of("x.pe");
        let tracker_address = urls_of(&params, tr.as_slice());
        let peer_address = urls_of(&params, pe.as_slice());
        Ok(MagnetLink { info_hash, display_name, tracker_address, peer_address })
    }
}

} // verus!

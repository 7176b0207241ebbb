use vstd::prelude::*;
use vstd::string::StringSliceAdditionalSpecFns;
use vstd::utf8::{encode_utf8, valid_utf8};

verus! {

/// The value of an ASCII hex digit.
pub open spec fn hex_digit(b: u8) -> Option<u8> {
    if 0x30 <= b <= 0x39 {
        Some((b - 0x30) as u8)
    } else if 0x61 <= b <= 0x66 {
        Some((b - 0x61 + 10) as u8)
    } else if 0x41 <= b <= 0x46 {
        Some((b - 0x41 + 10) as u8)
    } else {
        None
    }
}

/// The byte a two-character escape stands for, read as a base-16 `u8` that
/// may carry a leading `+`.
pub open spec fn escape_value(b1: u8, b2: u8) -> Option<u8> {
    if b1 == 0x2b {
        hex_digit(b2)
    } else {
        match (hex_digit(b1), hex_digit(b2)) {
            (Some(hi), Some(lo)) => Some((hi * 16 + lo) as u8),
            _ => None,
        }
    }
}

/// `bytes` with every `%XY` escape replaced by the byte it stands for;
/// `None` if an escape is cut short or not a number.
pub open spec fn unescape(bytes: Seq<u8>) -> Option<Seq<u8>>
    decreases bytes.len(),
{
    if bytes.len() == 0 {
        Some(seq![])
    } else if bytes[0] == 0x25 {
        if bytes.len() < 3 {
            None
        } else {
            match (escape_value(bytes[1], bytes[2]), unescape(bytes.skip(3))) {
                (Some(v), Some(rest)) => Some(seq![v] + rest),
                _ => None,
            }
        }
    } else {
        match unescape(bytes.skip(1)) {
            Some(rest) => Some(seq![bytes[0]] + rest),
            None => None,
        }
    }
}

/// The text of percent-escaped `bytes`, if they unescape to UTF-8.
pub open spec fn percent_decode_spec(bytes: Seq<u8>) -> Option<Seq<u8>> {
    match unescape(bytes) {
        Some(raw) => if valid_utf8(raw) {
            Some(raw)
        } else {
            None
        },
        None => None,
    }
}

/// The bytes of `file://`.
pub open spec fn file_scheme() -> Seq<u8> {
    seq![0x66u8, 0x69, 0x6c, 0x65, 0x3a, 0x2f, 0x2f]
}

/// The index of the first `/` of `s`, if any.
pub open spec fn first_slash(s: Seq<u8>) -> Option<int>
    decreases s.len(),
{
    if s.len() == 0 {
        None
    } else if s[0] == 0x2f {
        Some(0)
    } else {
        match first_slash(s.skip(1)) {
            Some(i) => Some(i + 1),
            None => None,
        }
    }
}

/// The path a URL of an open request names, as UTF-8 bytes: a `file://`
/// URL's path (from its first `/` past the scheme) unescaped, or a plain
/// absolute path as it is.
pub open spec fn open_url_path(url: Seq<u8>) -> Option<Seq<u8>> {
    if url.len() >= 7 && url.take(7) == file_scheme() {
        let rest = url.skip(7);
        match first_slash(rest) {
            Some(j) => percent_decode_spec(rest.skip(j)),
            None => None,
        }
    } else if url.len() > 0 && url[0] == 0x2f {
        Some(url)
    } else {
        None
    }
}

/// `String::from_utf8`: the string holding `bytes`, if they are UTF-8.
#[verifier::external_body]
fn string_from_utf8(bytes: Vec<u8>) -> (r: Option<String>)
    ensures
        r is Some <==> valid_utf8(bytes@),
        r matches Some(s) ==> encode_utf8(s@) == bytes@,
{
    String::from_utf8(bytes).ok()
}

fn hex_digit_of(b: u8) -> (r: Option<u8>)
    ensures
        r == hex_digit(b),
{
    if 0x30 <= b && b <= 0x39 {
        Some(b - 0x30)
    } else if 0x61 <= b && b <= 0x66 {
        Some(b - 0x61 + 10)
    } else if 0x41 <= b && b <= 0x46 {
        Some(b - 0x41 + 10)
    } else {
        None
    }
}

fn escape_value_of(b1: u8, b2: u8) -> (r: Option<u8>)
    ensures
        r == escape_value(b1, b2),
{
    if b1 == 0x2b {
        hex_digit_of(b2)
    } else {
        match (hex_digit_of(b1), hex_digit_of(b2)) {
            (Some(hi), Some(lo)) => Some(hi * 16 + lo),
            _ => None,
        }
    }
}

/// Unescapes `%XY` escapes of `bytes`; `None` for a bad escape or a result
/// that is not UTF-8.
fn percent_decode_bytes(bytes: &[u8]) -> (r: Option<String>)
    ensures
        r is Some <==> percent_decode_spec(bytes@) is Some,
        r matches Some(s) ==> encode_utf8(s@) == percent_decode_spec(bytes@)->Some_0,
{
    let mut out: Vec<u8> = Vec::new();
    let mut i: usize = 0;
    let n = bytes.len();
    proof {
        assert(bytes@.skip(0) =~= bytes@);
    }
    while i < n
        invariant
            n == bytes@.len(),
            i <= n,
            unescape(bytes@) == match unescape(bytes@.skip(i as int)) {
                Some(rest) => Some(out@ + rest),
                None => None::<Seq<u8>>,
            },
        decreases n - i,
    {
        let ghost tail = bytes@.skip(i as int);
        if bytes[i] == 0x25 {
            if n - i < 3 {
                proof {
                    assert(tail.len() < 3 && tail[0] == 0x25);
                }
                return None;
            }
            match escape_value_of(bytes[i + 1], bytes[i + 2]) {
                Some(v) => {
                    proof {
                        assert(tail[1] == bytes@[i + 1] && tail[2] == bytes@[i + 2]);
                        assert(tail.skip(3) =~= bytes@.skip(i + 3));
                        match unescape(tail.skip(3)) {
                            Some(rest) => {
                                assert(out@ + (seq![v] + rest) =~= out@.push(v) + rest);
                            },
                            None => {},
                        }
                    }
                    out.push(v);
                    i += 3;
                },
                None => {
                    proof {
                        assert(tail[1] == bytes@[i + 1] && tail[2] == bytes@[i + 2]);
                    }
                    return None;
                },
            }
        } else {
            let b = bytes[i];
            proof {
                assert(tail[0] == b);
                assert(tail.skip(1) =~= bytes@.skip(i + 1));
                match unescape(tail.skip(1)) {
                    Some(rest) => {
                        assert(out@ + (seq![b] + rest) =~= out@.push(b) + rest);
                    },
                    None => {},
                }
            }
            out.push(b);
            i += 1;
        }
    }
    proof {
        assert(bytes@.skip(i as int) =~= Seq::<u8>::empty());
        assert(out@ + Seq::<u8>::empty() =~= out@);
    }
    string_from_utf8(out)
}

/// Unescapes the `%XY` escapes of `input`; `None` for a bad escape or a
/// result that is not UTF-8.
pub fn percent_decode(input: &str) -> (r: Option<String>)
    ensures
        r is Some <==> percent_decode_spec(input.spec_bytes()) is Some,
        r matches Some(s) ==> encode_utf8(s@) == percent_decode_spec(input.spec_bytes())->Some_0,
{
    percent_decode_bytes(input.as_bytes())
}

/// The path an open request names: the path of a `file://` URL, unescaped,
/// or a plain absolute path.
pub fn path_from_open_url(url: &str) -> (r: Option<String>)
    ensures
        r is Some <==> open_url_path(url.spec_bytes()) is Some,
        r matches Some(s) ==> encode_utf8(s@) == open_url_path(url.spec_bytes())->Some_0,
{
    let bytes = url.as_bytes();
    let n = bytes.len();
    let scheme: [u8; 7] = [0x66, 0x69, 0x6c, 0x65, 0x3a, 0x2f, 0x2f];
    let mut is_file = n >= 7;
    let mut k: usize = 0;
    while is_file && k < 7
        invariant
            n == bytes@.len(),
            k <= 7,
            is_file ==> n >= 7,
            is_file ==> forall|q: int| 0 <= q < k ==> bytes@[q] == file_scheme()[q],
            !is_file ==> !(n >= 7 && bytes@.take(7) == file_scheme()),
            scheme@ == file_scheme(),
        decreases 7 - k + if is_file { 1int } else { 0int },
    {
        if bytes[k] != scheme[k] {
            proof {
                assert(bytes@.take(7)[k as int] != file_scheme()[k as int]);
            }
            is_file = false;
        } else {
            k += 1;
        }
    }
    if is_file {
        proof {
            assert(bytes@.take(7) =~= file_scheme());
        }
        let mut j: usize = 7;
        while j < n && bytes[j] != 0x2f
            invariant
                n == bytes@.len(),
                7 <= j <= n,
                forall|q: int| 7 <= q < j ==> bytes@[q] != 0x2f,
            decreases n - j,
        {
            j += 1;
        }
        proof {
            lemma_first_slash(bytes@.skip(7), (j - 7) as int);
        }
        if j >= n {
            return None;
        }
        let (_, path) = bytes.split_at(j);
        proof {
            assert(path@ =~= bytes@.skip(7).skip(j - 7));
        }
        return percent_decode_bytes(path);
    }
    if n > 0 && bytes[0] == 0x2f {
        let s = url.to_owned();
        return Some(s);
    }
    None
}

/// The first `/` of `s` is at the first index that holds one.
proof fn lemma_first_slash(s: Seq<u8>, j: int)
    requires
        0 <= j <= s.len(),
        forall|q: int| 0 <= q < j ==> s[q] != 0x2f,
        j < s.len() ==> s[j] == 0x2f,
    ensures
        first_slash(s) == if j < s.len() {
            Some(j)
        } else {
            None::<int>
        },
    decreases s.len(),
{
    if s.len() > 0 && j > 0 {
        assert forall|q: int| 0 <= q < j - 1 implies s.skip(1)[q] != 0x2f by {
            assert(s.skip(1)[q] == s[q + 1]);
        }
        if j < s.len() {
            assert(s.skip(1)[j - 1] == s[j]);
        }
        lemma_first_slash(s.skip(1), j - 1);
        assert(s[0] != 0x2f);
    }
}

} // verus!

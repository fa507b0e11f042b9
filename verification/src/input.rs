//! The input side of the format layer: the kinds of input streams and the
//! mapping from a path's file extension (case-insensitive) to an input
//! encoding. `Unknown` is itself a recognized value, not an error.

use vstd::prelude::*;

verus! {

/// Where an input stream comes from.
#[derive(Debug, Clone, PartialEq, Eq)]
pub enum InputKind {
    Stdin,
    File(String),
}

/// A supported input encoding, or `Unknown` when the extension does not
/// determine one.
#[derive(Debug, Clone, Copy, PartialEq, Eq, Structural)]
pub enum InputFormat {
    Json,
    Yaml,
    Unknown,
}

/// The input encoding assumed when none can be detected.
pub const DEFAULT_INPUT_FORMAT: InputFormat = InputFormat::Yaml;

/// The scalar value of `c`, with ASCII capital letters folded to lower
/// case.
pub open spec fn lower_u32(c: char) -> u32 {
    if 'A' as u32 <= c as u32 && c as u32 <= 'Z' as u32 {
        (c as u32 + 32) as u32
    } else {
        c as u32
    }
}

/// ASCII-case-insensitive equality of two character sequences.
pub open spec fn ascii_ieq(a: Seq<char>, b: Seq<char>) -> bool {
    a.len() == b.len() && forall|i: int| 0 <= i < a.len() ==> lower_u32(a[i]) == lower_u32(b[i])
}

/// `i` is the index right after the dot that starts the extension of `p`:
/// the dot lies in the last path component, is not that component's first
/// character, and no further dot follows it.
pub open spec fn is_ext_start(p: Seq<char>, i: int) -> bool {
    &&& 0 < i <= p.len()
    &&& p[i - 1] == '.'
    &&& i >= 2
    &&& p[i - 2] != '/'
    &&& forall|j: int| i <= j < p.len() ==> p[j] != '.' && p[j] != '/'
}

/// The extension of the path `p`, if it has one.
pub open spec fn spec_extension(p: Seq<char>) -> Option<Seq<char>> {
    if exists|i: int| is_ext_start(p, i) {
        Some(p.subrange(choose|i: int| is_ext_start(p, i), p.len() as int))
    } else {
        None
    }
}

/// At most one index starts the extension.
pub proof fn lemma_ext_start_unique(p: Seq<char>, i1: int, i2: int)
    requires
        is_ext_start(p, i1),
        is_ext_start(p, i2),
    ensures
        i1 == i2,
{
    if i1 < i2 {
        assert(p[i2 - 1] == '.');
    }
    if i2 < i1 {
        assert(p[i1 - 1] == '.');
    }
}

/// The input encoding that the extension of `p` selects.
pub open spec fn spec_format_from_path(p: Seq<char>) -> InputFormat {
    match spec_extension(p) {
        Option::None => InputFormat::Unknown,
        Option::Some(e) => if ascii_ieq(e, "json"@) {
            InputFormat::Json
        } else if ascii_ieq(e, "yaml"@) || ascii_ieq(e, "yml"@) {
            InputFormat::Yaml
        } else {
            InputFormat::Unknown
        },
    }
}

/// ASCII-case-insensitive comparison of `p`'s suffix starting at `start`
/// against `w`.
fn suffix_ieq(p: &str, start: usize, w: &str) -> (r: bool)
    requires
        start <= p@.len(),
    ensures
        r == ascii_ieq(p@.subrange(start as int, p@.len() as int), w@),
{
    let plen = p.unicode_len();
    let wlen = w.unicode_len();
    if plen - start != wlen {
        return false;
    }
    let mut k: usize = 0;
    while k < wlen
        invariant
            start + wlen == plen,
            plen == p@.len(),
            wlen == w@.len(),
            0 <= k <= wlen,
            forall|j: int| 0 <= j < k ==> lower_u32(p@[start + j]) == lower_u32(w@[j]),
        decreases wlen - k,
    {
        let cu = p.get_char(start + k) as u32;
        let wu = w.get_char(k) as u32;
        let cl: u32 = if cu >= 65 && cu <= 90 { cu + 32 } else { cu };
        let wl: u32 = if wu >= 65 && wu <= 90 { wu + 32 } else { wu };
        if cl != wl {
            assert(lower_u32(p@[start + k]) != lower_u32(w@[k as int]));
            return false;
        }
        k += 1;
    }
    true
}

impl InputFormat {
    /// Detects the input encoding from the file extension of `path`,
    /// compared without regard to ASCII case; an unrecognized or missing
    /// extension yields `Unknown`.
    pub fn from_extension(path: &str) -> (f: InputFormat)
        ensures
            f == spec_format_from_path(path@),
    {
        let len = path.unicode_len();
        let mut i: usize = len;
        loop
            invariant
                len == path@.len(),
                0 <= i <= len,
                forall|j: int| i <= j < len ==> path@[j] != '.' && path@[j] != '/',
            decreases i,
        {
            if i == 0 {
                proof {
                    assert forall|k: int| !is_ext_start(path@, k) by {
                        if is_ext_start(path@, k) {
                            assert(path@[k - 1] == '.');
                        }
                    }
                }
                return InputFormat::Unknown;
            }
            let c = path.get_char(i - 1);
            if c == '/' {
                proof {
                    assert forall|k: int| !is_ext_start(path@, k) by {
                        if is_ext_start(path@, k) {
                            if k - 1 >= i {
                                assert(path@[k - 1] == '.');
                            } else {
                                assert(path@[i - 1] == '/');
                                assert(i - 1 >= k);
                            }
                        }
                    }
                }
                return InputFormat::Unknown;
            }
            if c == '.' {
                if i == 1 || {
                    let before = path.get_char(i - 2);
                    before == '/'
                } {
                    proof {
                        assert forall|k: int| !is_ext_start(path@, k) by {
                            if is_ext_start(path@, k) {
                                if k - 1 >= i {
                                    assert(path@[k - 1] == '.');
                                } else if k == i {
                                } else {
                                    assert(k - 1 < i - 1);
                                    assert(path@[i - 1] == '.');
                                    assert(i - 1 >= k);
                                }
                            }
                        }
                    }
                    return InputFormat::Unknown;
                }
                proof {
                    assert(is_ext_start(path@, i as int));
                    let k = choose|k: int| is_ext_start(path@, k);
                    lemma_ext_start_unique(path@, k, i as int);
                }
                if suffix_ieq(path, i, "json") {
                    return InputFormat::Json;
                }
                if suffix_ieq(path, i, "yaml") {
                    return InputFormat::Yaml;
                }
                if suffix_ieq(path, i, "yml") {
                    return InputFormat::Yaml;
                }
                return InputFormat::Unknown;
            }
            i -= 1;
        }
    }

    /// The stable string identifier of the encoding, used for user-facing
    /// labels.
    pub fn as_str(&self) -> (r: &'static str)
        ensures
            *self is Json ==> r@ == "json"@,
            *self is Yaml ==> r@ == "yaml"@,
            *self is Unknown ==> r@ == "unknown"@,
    {
        match self {
            InputFormat::Json => "json",
            InputFormat::Yaml => "yaml",
            InputFormat::Unknown => "unknown",
        }
    }
}

impl Default for InputFormat {
    /// The default input encoding is YAML.
    fn default() -> (r: Self)
        ensures
            r == InputFormat::Yaml,
    {
        DEFAULT_INPUT_FORMAT
    }
}

} // verus!

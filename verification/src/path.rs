//! Request paths: normalization of a raw path string into slash-separated
//! segments and a canonical stripped form, and matching of that form
//! against a regex-style route template with named capture groups.
use vstd::prelude::*;
use vstd::string::*;
use crate::chars::split_on;
use crate::chars::split_char;
use crate::strmap::StrMap;
use crate::strmap::map_of_pairs;

verus! {

/// `s` with at most one leading and at most one trailing `'/'` removed.
pub open spec fn strip_spec(s: Seq<char>) -> Seq<char> {
    let t = if s.len() > 0 && s[0] == '/' {
        s.drop_first()
    } else {
        s
    };
    if t.len() > 0 && t[t.len() - 1] == '/' {
        t.drop_last()
    } else {
        t
    }
}

/// Removes at most one leading and one trailing slash from `s`.
pub fn strip_slashes(s: &str) -> (r: String)
    ensures
        r@ == strip_spec(s@),
{
    let n = s.unicode_len();
    let a: usize = if n > 0 && s.get_char(0) == '/' {
        1
    } else {
        0
    };
    let b: usize = if n > a && s.get_char(n - 1) == '/' {
        n - 1
    } else {
        n
    };
    let r = s.substring_char(a, b).to_owned();
    proof {
        let t = if s@.len() > 0 && s@[0] == '/' {
            s@.drop_first()
        } else {
            s@
        };
        assert(t =~= s@.subrange(a as int, n as int));
        if t.len() > 0 && t[t.len() - 1] == '/' {
            assert(t[t.len() - 1] == s@[n - 1]);
            assert(t.drop_last() =~= s@.subrange(a as int, b as int));
        } else {
            assert(t =~= s@.subrange(a as int, b as int));
        }
    }
    r
}

/// Whether `pat` is a valid regular expression.
pub uninterp spec fn regex_valid(pat: Seq<char>) -> bool;

/// Whether the regular expression `pat` matches somewhere in `text`.
pub uninterp spec fn regex_is_match(pat: Seq<char>, text: Seq<char>) -> bool;

/// The mapping from each named capture group of `pat` that captured in its
/// match against `text` to the captured substring.
pub uninterp spec fn regex_named_captures(pat: Seq<char>, text: Seq<char>) -> Map<
    Seq<char>,
    Seq<char>,
>;

/// Relies on `regex::Regex::new` and `regex::Regex::is_match`: whether a
/// pattern compiles, and whether it matches somewhere in a haystack, depend
/// on the two strings alone.
#[verifier::external_body]
fn regex_is_match_checked(pattern: &str, text: &str) -> (r: Option<bool>)
    ensures
        r is Some <==> regex_valid(pattern@),
        r matches Some(b) ==> b == regex_is_match(pattern@, text@),
{
    match regex::Regex::new(pattern) {
        Ok(re) => Some(re.is_match(text)),
        Err(_) => None,
    }
}

/// Relies on `regex::Regex::captures` and `regex::Regex::capture_names`:
/// for a matching pattern, which named groups captured, and what text each
/// captured, depend on the two strings alone; groups that did not capture
/// are left out.
#[verifier::external_body]
fn regex_capture_pairs(pattern: &str, text: &str) -> (r: Vec<(String, String)>)
    requires
        regex_valid(pattern@),
        regex_is_match(pattern@, text@),
    ensures
        map_of_pairs(r.deep_view()) == regex_named_captures(pattern@, text@),
{
    let re = regex::Regex::new(pattern).unwrap();
    let caps = re.captures(text).unwrap();
    let mut pairs: Vec<(String, String)> = Vec::new();
    for name in re.capture_names().flatten() {
        if let Some(m) = caps.name(name) {
            pairs.push((name.to_string(), m.as_str().to_string()));
        }
    }
    pairs
}

/// A parsed request path: its slash-separated segments and, internally, the
/// canonical stripped string the segments were split from.
pub struct Path {
    pub segments: Vec<String>,
    striped_str: String,
}

impl Path {
    /// The canonical form: the raw path with one optional leading and one
    /// optional trailing slash removed.
    pub closed spec fn canonical(self) -> Seq<char> {
        self.striped_str@
    }

    /// The segments, as a sequence of character sequences.
    pub closed spec fn segments_view(self) -> Seq<Seq<char>> {
        self.segments.deep_view()
    }

    /// The segments are exactly the canonical form split on `'/'`.
    pub open spec fn wf(self) -> bool {
        self.segments_view() == split_on(self.canonical(), '/')
    }

    /// Parses a raw path: strips one optional leading and one optional
    /// trailing slash, then splits the rest on `'/'`.  Never fails; an
    /// empty stripped path yields one empty segment.
    pub fn parse(raw: &str) -> (p: Path)
        ensures
            p.canonical() == strip_spec(raw@),
            p.segments_view() == split_on(strip_spec(raw@), '/'),
            p.wf(),
    {
        let stripped = strip_slashes(raw);
        let segments = split_char(stripped.as_str(), '/');
        Path { segments, striped_str: stripped }
    }

    /// Matches the canonical form against the stripped template, read as a
    /// regular expression searched anywhere in the canonical form; on a
    /// match, returns the named captures.  The template must be a valid
    /// regular expression once stripped.
    pub fn compare(&self, template: &str) -> (r: Option<StrMap>)
        requires
            regex_valid(strip_spec(template@)),
        ensures
            r is Some <==> regex_is_match(strip_spec(template@), self.canonical()),
            r matches Some(m) ==> m@ == regex_named_captures(
                strip_spec(template@),
                self.canonical(),
            ) && m.wf(),
    {
        let pat = strip_slashes(template);
        let matched = regex_is_match_checked(pat.as_str(), self.striped_str.as_str());
        match matched {
            None => {
                proof {
                    assert(false);
                }
                None
            },
            Some(false) => None,
            Some(true) => {
                let pairs = regex_capture_pairs(pat.as_str(), self.striped_str.as_str());
                let mut m = StrMap::new();
                let mut i: usize = 0;
                proof {
                    assert(pairs.deep_view().subrange(0, 0) =~= Seq::<(
                        Seq<char>,
                        Seq<char>,
                    )>::empty());
                }
                while i < pairs.len()
                    invariant
                        i <= pairs.len(),
                        m.wf(),
                        m@ == map_of_pairs(pairs.deep_view().subrange(0, i as int)),
                    decreases pairs.len() - i,
                {
                    m.insert(pairs[i].0.clone(), pairs[i].1.clone());
                    proof {
                        let dv = pairs.deep_view();
                        assert(dv.subrange(0, i + 1).drop_last() =~= dv.subrange(0, i as int));
                        assert(dv.subrange(0, i + 1).last() == dv[i as int]);
                    }
                    i = i + 1;
                }
                proof {
                    assert(pairs.deep_view().subrange(0, pairs.len() as int) =~= pairs.deep_view());
                }
                Some(m)
            },
        }
    }

    /// Like `compare`, but checks the template first: returns `None` when
    /// the stripped template is not a valid regular expression, and
    /// otherwise the result of `compare`.
    pub fn try_compare(&self, template: &str) -> (r: Option<Option<StrMap>>)
        ensures
            r is Some <==> regex_valid(strip_spec(template@)),
            r matches Some(x) ==> (x is Some <==> regex_is_match(
                strip_spec(template@),
                self.canonical(),
            )),
            r matches Some(x) ==> (x matches Some(m) ==> m@ == regex_named_captures(
                strip_spec(template@),
                self.canonical(),
            ) && m.wf()),
    {
        let pat = strip_slashes(template);
        match regex_is_match_checked(pat.as_str(), self.striped_str.as_str()) {
            None => None,
            Some(_) => Some(self.compare(template)),
        }
    }
}

/// Stripping slashes from a path string before parsing never changes the
/// segment list: a `Path` parsed from `s` and one parsed from the stripped
/// form of `s` have equal segments, whenever one strip of `s` already
/// reaches its fixed point (`lemma_strip_once_enough` gives a simple
/// sufficient condition; a path beginning or ending with a doubled slash
/// is outside it).
pub proof fn lemma_parse_after_strip(p: Path, q: Path, s: Seq<char>)
    requires
        p.wf(),
        q.wf(),
        p.canonical() == strip_spec(s),
        q.canonical() == strip_spec(strip_spec(s)),
        strip_spec(strip_spec(s)) == strip_spec(s),
    ensures
        p.segments_view() == q.segments_view(),
{
}

/// One strip reaches its fixed point for every path that neither begins
/// nor ends with a doubled slash, so such paths satisfy the premise of
/// `lemma_parse_after_strip`.
pub proof fn lemma_strip_once_enough(s: Seq<char>)
    requires
        !(s.len() >= 2 && s[0] == '/' && s[1] == '/'),
        !(s.len() >= 2 && s[s.len() - 1] == '/' && s[s.len() - 2] == '/'),
    ensures
        strip_spec(strip_spec(s)) == strip_spec(s),
{
    let t = if s.len() > 0 && s[0] == '/' {
        s.drop_first()
    } else {
        s
    };
    let u = if t.len() > 0 && t[t.len() - 1] == '/' {
        t.drop_last()
    } else {
        t
    };
    assert(u == strip_spec(s));
    if u.len() > 0 {
        if s.len() > 0 && s[0] == '/' {
            assert(u[0] == s[1]);
        } else {
            assert(u[0] == s[0]);
        }
        assert(u[0] != '/');
        if t.len() > 0 && t[t.len() - 1] == '/' {
            if s.len() > 0 && s[0] == '/' {
                assert(t[t.len() - 1] == s[s.len() - 1]);
                assert(u[u.len() - 1] == s[s.len() - 2]);
            } else {
                assert(u[u.len() - 1] == s[s.len() - 2]);
            }
        } else {
            assert(u[u.len() - 1] == t[t.len() - 1]);
        }
        assert(u[u.len() - 1] != '/');
    }
}

} // verus!

//! Parsing of a complete textual HTTP request: request line, headers and
//! body, with percent-decoded query parameters.  The whole parse is a pure
//! function of the input text; any malformed stage rejects the request with
//! no partial result.
use vstd::prelude::*;
use vstd::string::*;
use crate::chars::{
    eq_char, first_where, split_on, split_ws, lines_spec, trim_spec, upper,
    split_char, split_ws_exec, split_lines, find_char, trim_exec, to_upper, str_eq, concat_from,
};
use crate::strmap::{StrMap, map_of_pairs, lemma_mop_contains};
use crate::path::{Path, strip_spec};

verus! {

/// The characters a percent-encoded string decodes to: `%XX` triples become
/// single bytes and the byte sequence is read as UTF-8, invalid sequences
/// replaced, never rejected.
pub uninterp spec fn percent_decoded(s: Seq<char>) -> Seq<char>;

/// Relies on `percent_encoding::percent_decode` followed by
/// `decode_utf8_lossy`: the decoded text depends on the input characters
/// alone, and a non-empty input always leaves at least one character.
#[verifier::external_body]
fn percent_decode_str(s: &str) -> (r: String)
    ensures
        r@ == percent_decoded(s@),
        s@.len() > 0 ==> r@.len() > 0,
{
    percent_encoding::percent_decode(s.as_bytes()).decode_utf8_lossy().into_owned()
}

/// A parse failure: the input was rejected at some stage, with a short
/// diagnostic.
#[derive(Debug)]
pub enum ParseError {
    Malformed(String),
}

/// The part of the request target before the first `'?'`, or all of it.
pub open spec fn path_part(target: Seq<char>) -> Seq<char> {
    let i = first_where(target, eq_char('?'));
    if i >= 0 {
        target.subrange(0, i)
    } else {
        target
    }
}

/// The `'&'`-separated query elements after the first `'?'`, if any.
pub open spec fn query_elems(target: Seq<char>) -> Seq<Seq<char>> {
    let i = first_where(target, eq_char('?'));
    if i >= 0 {
        split_on(target.subrange(i + 1, target.len() as int), '&')
    } else {
        Seq::empty()
    }
}

/// A query element is acceptable when it has an `'='` preceded by a
/// non-empty name.
pub open spec fn query_elem_ok(e: Seq<char>) -> bool {
    first_where(e, eq_char('=')) >= 1
}

pub open spec fn query_ok(target: Seq<char>) -> bool {
    forall|i: int|
        0 <= i < query_elems(target).len() ==> query_elem_ok(#[trigger] query_elems(target)[i])
}

/// The decoded name and value of a query element, split at its first `'='`.
pub open spec fn query_pair(e: Seq<char>) -> (Seq<char>, Seq<char>) {
    let p = first_where(e, eq_char('='));
    (percent_decoded(e.subrange(0, p)), percent_decoded(e.subrange(p + 1, e.len() as int)))
}

/// The query mapping: decoded pairs in element order, last write winning.
pub open spec fn query_map_of(target: Seq<char>) -> Map<Seq<char>, Seq<char>> {
    map_of_pairs(Seq::new(query_elems(target).len(), |i: int| query_pair(query_elems(target)[i])))
}

pub open spec fn proto_parts(tok: Seq<char>) -> Seq<Seq<char>> {
    split_on(tok, '/')
}

/// The protocol token must be `HTTP/<version>` with a case-insensitive
/// `HTTP` and a non-empty version.
pub open spec fn proto_ok(tok: Seq<char>) -> bool {
    &&& proto_parts(tok).len() >= 2
    &&& upper(proto_parts(tok)[0]) == "HTTP"@
    &&& proto_parts(tok)[1].len() > 0
}

/// The index of the first empty line at or after `c`, or the line count.
pub open spec fn hdr_end(lines: Seq<Seq<char>>, c: int) -> int
    decreases lines.len() - c when c <= lines.len()
{
    if c >= lines.len() || lines[c].len() == 0 {
        c
    } else {
        hdr_end(lines, c + 1)
    }
}

proof fn lemma_hdr_end_val(lines: Seq<Seq<char>>, c: int, e: int)
    requires
        0 <= c <= e <= lines.len(),
        forall|i: int| c <= i < e ==> (#[trigger] lines[i]).len() > 0,
        e == lines.len() || lines[e].len() == 0,
    ensures
        hdr_end(lines, c) == e,
    decreases e - c,
{
    if c < e {
        assert(lines[c].len() > 0);
        lemma_hdr_end_val(lines, c + 1, e);
    }
}

proof fn lemma_hdr_end_ge(lines: Seq<Seq<char>>, c: int)
    requires
        0 <= c <= lines.len(),
    ensures
        hdr_end(lines, c) >= c,
    decreases lines.len() - c,
{
    if c < lines.len() && lines[c].len() > 0 {
        lemma_hdr_end_ge(lines, c + 1);
    }
}

proof fn lemma_hdr_end_gt(lines: Seq<Seq<char>>, c: int, k: int)
    requires
        0 <= c <= k < lines.len(),
        forall|i: int| c <= i <= k ==> (#[trigger] lines[i]).len() > 0,
    ensures
        hdr_end(lines, c) > k,
    decreases k - c,
{
    assert(lines[c].len() > 0);
    if c < k {
        lemma_hdr_end_gt(lines, c + 1, k);
    } else {
        lemma_hdr_end_ge(lines, c + 1);
    }
}

/// A header line is acceptable when it has a colon and both its trimmed
/// name and trimmed value are non-empty.
pub open spec fn header_ok(l: Seq<char>) -> bool {
    let p = first_where(l, eq_char(':'));
    &&& p >= 0
    &&& trim_spec(l.subrange(0, p)).len() > 0
    &&& trim_spec(l.subrange(p + 1, l.len() as int)).len() > 0
}

/// The trimmed name and value of a header line, split at its first colon;
/// any further colons stay in the value.
pub open spec fn header_pair(l: Seq<char>) -> (Seq<char>, Seq<char>) {
    let p = first_where(l, eq_char(':'));
    (trim_spec(l.subrange(0, p)), trim_spec(l.subrange(p + 1, l.len() as int)))
}

pub open spec fn headers_ok(lines: Seq<Seq<char>>) -> bool {
    forall|i: int| 1 <= i < hdr_end(lines, 1) ==> header_ok(#[trigger] lines[i])
}

pub open spec fn header_pairs(lines: Seq<Seq<char>>) -> Seq<(Seq<char>, Seq<char>)> {
    Seq::new((hdr_end(lines, 1) - 1) as nat, |i: int| header_pair(lines[i + 1]))
}

pub open spec fn headers_map_of(lines: Seq<Seq<char>>) -> Map<Seq<char>, Seq<char>> {
    map_of_pairs(header_pairs(lines))
}

/// The body: every line after the blank separator, concatenated with no
/// separator reinserted; empty when at most one line follows the header
/// scan.
pub open spec fn body_of(lines: Seq<Seq<char>>) -> Seq<char> {
    let e = hdr_end(lines, 1);
    if lines.len() - e > 1 {
        lines.subrange(e + 1, lines.len() as int).flatten()
    } else {
        Seq::empty()
    }
}

/// When a raw request text parses successfully: enough lines, enough
/// request-line tokens, acceptable query elements, an `HTTP/<ver>`
/// protocol token, no degenerate first header line, and acceptable
/// header lines up to the first blank line.
pub open spec fn parse_ok(s: Seq<char>) -> bool {
    let lines = lines_spec(s);
    let toks = split_ws(lines[0]);
    &&& lines.len() >= 2
    &&& toks.len() >= 3
    &&& query_ok(toks[1])
    &&& proto_ok(toks[2])
    &&& lines[1] != seq!['\r', '\n']
    &&& headers_ok(lines)
}

/// The abstract value of a parsed request.
pub ghost struct ReqModel {
    pub method: Seq<char>,
    pub canonical: Seq<char>,
    pub segments: Seq<Seq<char>>,
    pub query: Map<Seq<char>, Seq<char>>,
    pub version: Seq<char>,
    pub headers: Map<Seq<char>, Seq<char>>,
    pub params: Map<Seq<char>, Seq<char>>,
    pub body: Seq<char>,
}

/// What a successful parse of `s` yields: uppercased method, the path
/// before any `'?'` split into segments, the decoded query mapping, the
/// version after `HTTP/`, the header mapping, empty route parameters, and
/// the body text.
pub open spec fn parse_model(s: Seq<char>) -> ReqModel {
    let lines = lines_spec(s);
    let toks = split_ws(lines[0]);
    ReqModel {
        method: upper(toks[0]),
        canonical: strip_spec(path_part(toks[1])),
        segments: split_on(strip_spec(path_part(toks[1])), '/'),
        query: query_map_of(toks[1]),
        version: proto_parts(toks[2])[1],
        headers: headers_map_of(lines),
        params: Map::empty(),
        body: body_of(lines),
    }
}

/// A parsed HTTP request.
pub struct HttpRequest {
    pub method: String,
    pub path: Path,
    pub query: StrMap,
    pub version: String,
    pub headers: StrMap,
    pub params: StrMap,
    pub body: String,
}

impl View for HttpRequest {
    type V = ReqModel;

    open spec fn view(&self) -> ReqModel {
        ReqModel {
            method: self.method@,
            canonical: self.path.canonical(),
            segments: self.path.segments_view(),
            query: self.query@,
            version: self.version@,
            headers: self.headers@,
            params: self.params@,
            body: self.body@,
        }
    }
}

impl HttpRequest {
    /// The maps are well formed and never hold an empty key, and the path
    /// segments agree with its canonical form.
    pub open spec fn wf(self) -> bool {
        &&& self.path.wf()
        &&& self.query.wf()
        &&& self.headers.wf()
        &&& self.params.wf()
        &&& !self@.query.contains_key(Seq::<char>::empty())
        &&& !self@.headers.contains_key(Seq::<char>::empty())
        &&& !self@.params.contains_key(Seq::<char>::empty())
    }

    /// Parses a raw request text.  Succeeds exactly on the inputs
    /// `parse_ok` admits and then returns the value `parse_model`
    /// describes; every rejection is a `Malformed` error with no partial
    /// result.  Re-parsing equal text yields an equal value.
    #[verifier::loop_isolation(false)]
    pub fn parse(raw: &str) -> (r: Result<HttpRequest, ParseError>)
        ensures
            r is Ok <==> parse_ok(raw@),
            r matches Ok(req) ==> req@ == parse_model(raw@) && req.wf(),
    {
        let ghost lm = lines_spec(raw@);
        let lines = split_lines(raw);
        if lines.len() < 2 {
            return Err(ParseError::Malformed("Unable to parse request".to_owned()));
        }
        proof {
            assert(lm[0] == lines.deep_view()[0]);
            assert(lines@[0]@ == lm[0]);
        }
        let info = split_ws_exec(lines[0].as_str());
        let ghost toks = split_ws(lm[0]);
        if info.len() < 3 {
            return Err(ParseError::Malformed("Unable to parse request".to_owned()));
        }
        proof {
            assert(info@[1]@ == toks[1]);
            assert(info@[0]@ == toks[0]);
            assert(info@[2]@ == toks[2]);
        }
        let target = &info[1];
        let qpos = find_char(target.as_str(), '?');
        let mut query = StrMap::new();
        let ghost qe = query_elems(toks[1]);
        match qpos {
            Some(qi) => {
                let tn = target.as_str().unicode_len();
                let qsrc = target.as_str().substring_char(qi + 1, tn);
                let elems = split_char(qsrc, '&');
                proof {
                    assert(qsrc@ == toks[1].subrange(qi + 1, toks[1].len() as int));
                    assert(elems.deep_view() == qe);
                    assert(Seq::new(0nat, |i: int| query_pair(qe[i])) =~= Seq::<(
                        Seq<char>,
                        Seq<char>,
                    )>::empty());
                }
                let mut k: usize = 0;
                while k < elems.len()
                    invariant
                        k <= elems.len(),
                        elems.deep_view() == qe,
                        query.wf(),
                        query@ == map_of_pairs(Seq::new(k as nat, |i: int| query_pair(qe[i]))),
                        forall|i: int| 0 <= i < k ==> query_elem_ok(#[trigger] qe[i]),
                        forall|i: int| 0 <= i < k ==> (#[trigger] query_pair(qe[i])).0.len() > 0,
                        query_elems(toks[1]) == qe,
                    decreases elems.len() - k,
                {
                    let e = &elems[k];
                    proof {
                        assert(e@ == qe[k as int]);
                    }
                    let epos = find_char(e.as_str(), '=');
                    match epos {
                        None => {
                            proof {
                                assert(0 <= k < query_elems(toks[1]).len());
                                assert(!query_elem_ok(query_elems(toks[1])[k as int]));
                                assert(!query_ok(toks[1]));
                                assert(!parse_ok(raw@));
                            }
                            return Err(ParseError::Malformed("Unable to parse request".to_owned()));
                        },
                        Some(p) => {
                            if p == 0 {
                                proof {
                                    assert(0 <= k < query_elems(toks[1]).len());
                                    assert(!query_elem_ok(query_elems(toks[1])[k as int]));
                                    assert(!query_ok(toks[1]));
                                    assert(!parse_ok(raw@));
                                }
                                return Err(ParseError::Malformed(
                                    "Unable to parse request".to_owned(),
                                ));
                            }
                            let en = e.as_str().unicode_len();
                            let name = percent_decode_str(e.as_str().substring_char(0, p));
                            let value = percent_decode_str(e.as_str().substring_char(p + 1, en));
                            proof {
                                assert(name@ == (query_pair(qe[k as int])).0);
                                assert(value@ == (query_pair(qe[k as int])).1);
                            }
                            query.insert(name, value);
                            proof {
                                let f = |i: int| query_pair(qe[i]);
                                assert(Seq::new((k + 1) as nat, f).drop_last() =~= Seq::new(
                                    k as nat,
                                    f,
                                ));
                                assert(Seq::new((k + 1) as nat, f).last() == f(k as int));
                            }
                            k = k + 1;
                        },
                    }
                }
                proof {
                    assert(Seq::new(k as nat, |i: int| query_pair(qe[i])) =~= Seq::new(
                        query_elems(toks[1]).len(),
                        |i: int| query_pair(query_elems(toks[1])[i]),
                    ));
                }
            },
            None => {
                proof {
                    assert(qe.len() == 0);
                    assert(Seq::new(0nat, |i: int| query_pair(qe[i])) =~= Seq::<(
                        Seq<char>,
                        Seq<char>,
                    )>::empty());
                    assert(Seq::new(qe.len(), |i: int| query_pair(qe[i])) =~= Seq::new(
                        query_elems(toks[1]).len(),
                        |i: int| query_pair(query_elems(toks[1])[i]),
                    ));
                }
            },
        }
        proof {
            assert(query@ == query_map_of(toks[1]));
            assert(query_ok(toks[1]));
        }
        let ppart = match qpos {
            Some(qi) => target.as_str().substring_char(0, qi).to_owned(),
            None => target.clone(),
        };
        proof {
            assert(ppart@ == path_part(toks[1]));
        }
        let proto = split_char(info[2].as_str(), '/');
        let ghost pp = proto_parts(toks[2]);
        proof {
            assert(proto.deep_view() == pp);
        }
        if proto.len() < 2 {
            return Err(ParseError::Malformed("Unable to parse request".to_owned()));
        }
        let up = to_upper(proto[0].as_str());
        if !str_eq(up.as_str(), "HTTP") {
            proof {
                assert(up@ == upper(pp[0]));
            }
            return Err(ParseError::Malformed("Unable to parse request".to_owned()));
        }
        if proto[1].as_str().is_empty() {
            proof {
                assert(pp[1].len() == 0);
            }
            return Err(ParseError::Malformed("Unable to parse request".to_owned()));
        }
        let version = proto[1].clone();
        proof {
            assert(version@ == pp[1]);
            assert(proto_ok(toks[2]));
        }
        proof {
            reveal_strlit("\r\n");
            assert("\r\n"@ =~= seq!['\r', '\n']);
            assert(lines@[1]@ == lm[1]);
        }
        if str_eq(lines[1].as_str(), "\r\n") {
            return Err(ParseError::Malformed(
                "Unable to parse request: no headers was presented".to_owned(),
            ));
        }
        let mut headers = StrMap::new();
        let mut cursor: usize = 1;
        proof {
            assert(Seq::new(0nat, |i: int| header_pair(lm[i + 1])) =~= Seq::<(
                Seq<char>,
                Seq<char>,
            )>::empty());
        }
        while cursor < lines.len() && !lines[cursor].as_str().is_empty()
            invariant
                1 <= cursor <= lines.len(),
                lines.deep_view() == lm,
                lines.len() == lm.len(),
                forall|i: int| 1 <= i < cursor ==> (#[trigger] lm[i]).len() > 0,
                forall|i: int| 1 <= i < cursor ==> header_ok(#[trigger] lm[i]),
                headers.wf(),
                headers@ == map_of_pairs(
                    Seq::new((cursor - 1) as nat, |i: int| header_pair(lm[i + 1])),
                ),
            decreases lines.len() - cursor,
        {
            let ln = &lines[cursor];
            proof {
                assert(ln@ == lm[cursor as int]);
            }
            let cpos = find_char(ln.as_str(), ':');
            match cpos {
                None => {
                    proof {
                        lemma_hdr_end_gt(lm, 1, cursor as int);
                        assert(!header_ok(lm[cursor as int]));
                        assert(!headers_ok(lm));
                        assert(!parse_ok(raw@));
                    }
                    return Err(ParseError::Malformed(
                        "Unable to parse request: invalid header".to_owned(),
                    ));
                },
                Some(p) => {
                    let nl = ln.as_str().unicode_len();
                    let name = trim_exec(ln.as_str().substring_char(0, p));
                    let value = trim_exec(ln.as_str().substring_char(p + 1, nl));
                    proof {
                        assert(name@ == (header_pair(lm[cursor as int])).0);
                        assert(value@ == (header_pair(lm[cursor as int])).1);
                    }
                    if name.as_str().is_empty() || value.as_str().is_empty() {
                        proof {
                            lemma_hdr_end_gt(lm, 1, cursor as int);
                            assert(!header_ok(lm[cursor as int]));
                            assert(!headers_ok(lm));
                            assert(!parse_ok(raw@));
                        }
                        return Err(ParseError::Malformed(
                            "Unable to parse request: invalid header".to_owned(),
                        ));
                    }
                    proof {
                        assert(header_ok(lm[cursor as int]));
                    }
                    headers.insert(name, value);
                    proof {
                        let f = |i: int| header_pair(lm[i + 1]);
                        assert(Seq::new(cursor as nat, f).drop_last() =~= Seq::new(
                            (cursor - 1) as nat,
                            f,
                        ));
                        assert(Seq::new(cursor as nat, f).last() == f(cursor - 1));
                    }
                    cursor = cursor + 1;
                },
            }
        }
        proof {
            lemma_hdr_end_val(lm, 1, cursor as int);
            assert(Seq::new((cursor - 1) as nat, |i: int| header_pair(lm[i + 1])) =~= header_pairs(
                lm,
            ));
            assert(headers@ == headers_map_of(lm));
            assert(headers_ok(lm));
        }
        let mut body = String::new();
        if lines.len() - cursor > 1 {
            body = concat_from(&lines, cursor + 1);
            proof {
                assert(body@ == body_of(lm));
            }
        } else {
            proof {
                assert(body@ =~= body_of(lm));
            }
        }
        let method = to_upper(info[0].as_str());
        let path = Path::parse(ppart.as_str());
        let params = StrMap::new();
        let req = HttpRequest { method, path, query, version, headers, params, body };
        proof {
            assert(parse_ok(raw@));
            let m = parse_model(raw@);
            assert(req@.method == m.method);
            assert(req@.canonical == m.canonical);
            assert(req@.segments == m.segments);
            assert(req@.query == m.query);
            assert(req@.version == m.version);
            assert(req@.headers == m.headers);
            assert(req@.params =~= m.params);
            assert(req@.body == m.body);
            assert(req@ == m);
            lemma_mop_contains(
                Seq::new(query_elems(toks[1]).len(), |i: int| query_pair(query_elems(toks[1])[i])),
                Seq::<char>::empty(),
            );
            lemma_mop_contains(header_pairs(lm), Seq::<char>::empty());
            assert forall|i: int| 0 <= i < header_pairs(lm).len() implies (#[trigger] header_pairs(
                lm,
            )[i]).0.len() > 0 by {
                assert(header_ok(lm[i + 1]));
            }
            assert(req.wf());
        }
        Ok(req)
    }
}

/// Parsing is a pure function of the request text: equal inputs always
/// yield equal outcomes, so re-parsing the same bytes re-creates an equal
/// request value.
pub proof fn lemma_parse_deterministic(a: Seq<char>, b: Seq<char>)
    requires
        a == b,
    ensures
        parse_ok(a) == parse_ok(b),
        parse_model(a) == parse_model(b),
{
}

} // verus!

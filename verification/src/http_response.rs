//! The response value: status line, headers and body, serialized to wire
//! format, with observers notified when the response is sent.
use vstd::prelude::*;
use vstd::string::*;
use crate::chars::string_from_chars;
use crate::strmap::StrMap;

verus! {

/// The decimal digit character for `d`.
pub open spec fn dec_digit(d: nat) -> char {
    if d == 0 { '0' }
    else if d == 1 { '1' }
    else if d == 2 { '2' }
    else if d == 3 { '3' }
    else if d == 4 { '4' }
    else if d == 5 { '5' }
    else if d == 6 { '6' }
    else if d == 7 { '7' }
    else if d == 8 { '8' }
    else { '9' }
}

/// The decimal digit string of `n`, without leading zeros (just `"0"` for
/// zero).
pub open spec fn dec_str(n: nat) -> Seq<char>
    decreases n,
{
    if n < 10 {
        seq![dec_digit(n)]
    } else {
        dec_str(n / 10) + seq![dec_digit(n % 10)]
    }
}

fn dec_digit_exec(d: u16) -> (c: char)
    requires
        d < 10,
    ensures
        c == dec_digit(d as nat),
{
    if d == 0 { '0' }
    else if d == 1 { '1' }
    else if d == 2 { '2' }
    else if d == 3 { '3' }
    else if d == 4 { '4' }
    else if d == 5 { '5' }
    else if d == 6 { '6' }
    else if d == 7 { '7' }
    else if d == 8 { '8' }
    else { '9' }
}

/// `s` reversed.
pub open spec fn rev_chars(s: Seq<char>) -> Seq<char> {
    Seq::new(s.len(), |i: int| s[s.len() - 1 - i])
}

/// The decimal digits of `n`, most significant first.
#[verifier::loop_isolation(false)]
fn u16_to_dec(n: u16) -> (r: Vec<char>)
    ensures
        r@ == dec_str(n as nat),
{
    let mut rev: Vec<char> = Vec::new();
    if n == 0 {
        let mut r: Vec<char> = Vec::new();
        r.push('0');
        proof {
            assert(r@ =~= dec_str(0));
        }
        return r;
    }
    let mut m: u16 = n;
    proof {
        assert(rev_chars(rev@) =~= Seq::<char>::empty());
        assert(dec_str(n as nat) + rev_chars(rev@) =~= dec_str(n as nat));
    }
    while m > 0
        invariant
            m > 0 ==> dec_str(n as nat) == dec_str(m as nat) + rev_chars(rev@),
            m == 0 ==> dec_str(n as nat) == rev_chars(rev@),
        decreases m,
    {
        let ghost old_rev = rev@;
        let ghost old_m = m as nat;
        let d = m % 10;
        rev.push(dec_digit_exec(d));
        m = m / 10;
        proof {
            let dc = dec_digit(old_m % 10);
            assert(rev_chars(rev@) =~= seq![dc] + rev_chars(old_rev));
            if m > 0 {
                assert(old_m >= 10);
                assert(dec_str(old_m) == dec_str(old_m / 10) + seq![dc]);
                assert(dec_str(m as nat) + rev_chars(rev@) =~= (dec_str(old_m / 10) + seq![dc])
                    + rev_chars(old_rev));
            } else {
                assert(old_m < 10);
                assert(old_m % 10 == old_m);
                assert(dec_str(old_m) == seq![dc]);
                assert(rev_chars(rev@) =~= dec_str(old_m) + rev_chars(old_rev));
            }
        }
    }
    let k = rev.len();
    let mut r: Vec<char> = Vec::new();
    let mut i: usize = 0;
    while i < k
        invariant
            i <= k,
            r@.len() == i,
            forall|j: int| 0 <= j < i ==> r@[j] == rev@[k - 1 - j],
        decreases k - i,
    {
        r.push(rev[k - 1 - i]);
        i = i + 1;
    }
    proof {
        assert(r@ =~= rev_chars(rev@));
    }
    r
}

/// The serialized headers: `\r\nName: Value` for each pair in order.
pub open spec fn render_headers(entries: Seq<(Seq<char>, Seq<char>)>) -> Seq<char>
    decreases entries.len(),
{
    if entries.len() == 0 {
        Seq::empty()
    } else {
        render_headers(entries.drop_last()) + "\r\n"@ + entries.last().0 + ": "@
            + entries.last().1
    }
}

/// The data fields of a response, frozen for observers: everything but the
/// observer list itself.
pub struct ResponseSnapshot {
    pub version: String,
    pub status_code: u16,
    pub status_msg: Option<String>,
    pub headers: StrMap,
    pub body: Option<String>,
    pub to_send: bool,
}

/// An observer notified with a read-only snapshot of the response when it
/// is sent.  Implementations are supplied by the application.
pub trait ResponseHandler {
    fn on_response(&mut self, response: &ResponseSnapshot);
}

/// Relies on `chrono::Utc::now` and `DateTime::format`: a formatted
/// timestamp for the `Date` header.  The value depends on the clock, so
/// nothing is promised of it.
#[verifier::external_body]
fn now_date_string() -> String {
    chrono::Utc::now().format("%a %d %b %Y %H:%M:%S GMT").to_string()
}

/// An HTTP response under construction: status line fields, headers, an
/// optional body, and the observers of type `H` to notify on send.
pub struct HttpResponse<H: ResponseHandler> {
    pub version: String,
    pub status_code: u16,
    pub status_msg: Option<String>,
    pub headers: StrMap,
    pub body: Option<String>,
    pub to_send: bool,
    pub response_handlers: Vec<H>,
}

impl<H: ResponseHandler> HttpResponse<H> {
    /// A fresh response: status `200 OK`, protocol version `1.1`, the two
    /// default headers `Date` (the current time) and `Server`, no body and
    /// no observers.
    pub fn new() -> (r: HttpResponse<H>)
        ensures
            r.version@ == "1.1"@,
            r.status_code == 200,
            r.status_msg matches Some(m) && m@ == "OK"@,
            r.headers.wf(),
            r.headers@.contains_key("Server"@),
            r.headers@["Server"@] == "Flyserve"@,
            r.headers@.contains_key("Date"@),
            r.headers@.dom() == set!["Date"@, "Server"@],
            r.body is None,
            r.to_send == false,
            r.response_handlers@.len() == 0,
    {
        let mut headers = StrMap::new();
        headers.insert("Date".to_owned(), now_date_string());
        headers.insert("Server".to_owned(), "Flyserve".to_owned());
        proof {
            reveal_strlit("Date");
            reveal_strlit("Server");
            assert("Date"@.len() == 4 && "Server"@.len() == 6);
            assert(headers@.dom() =~= set!["Date"@, "Server"@]);
        }
        HttpResponse {
            version: "1.1".to_owned(),
            status_code: 200,
            status_msg: Some("OK".to_owned()),
            headers,
            body: None,
            to_send: false,
            response_handlers: Vec::new(),
        }
    }

    /// Registers an observer to be notified when the response is sent.
    pub fn set_response_handler(&mut self, handler: H)
        ensures
            final(self).response_handlers@ == old(self).response_handlers@.push(handler),
            final(self).version == old(self).version,
            final(self).status_code == old(self).status_code,
            final(self).status_msg == old(self).status_msg,
            final(self).headers == old(self).headers,
            final(self).body == old(self).body,
            final(self).to_send == old(self).to_send,
    {
        self.response_handlers.push(handler);
    }

    /// A read-only copy of the response fields, without the observers.
    pub fn snapshot(&self) -> (r: ResponseSnapshot)
        ensures
            r.version@ == self.version@,
            r.status_code == self.status_code,
            self.status_msg matches Some(m) ==> (r.status_msg matches Some(m2) && m2@ == m@),
            self.status_msg is None ==> r.status_msg is None,
            r.headers@ == self.headers@,
            r.headers.entries_view() == self.headers.entries_view(),
            self.body matches Some(b) ==> (r.body matches Some(b2) && b2@ == b@),
            self.body is None ==> r.body is None,
            r.to_send == self.to_send,
    {
        let status_msg = match &self.status_msg {
            Some(m) => Some(m.clone()),
            None => None,
        };
        let body = match &self.body {
            Some(b) => Some(b.clone()),
            None => None,
        };
        ResponseSnapshot {
            version: self.version.clone(),
            status_code: self.status_code,
            status_msg,
            headers: self.headers.duplicate(),
            body,
            to_send: self.to_send,
        }
    }

    /// Notifies every registered observer, in registration order, with one
    /// snapshot frozen before the first notification, then marks the
    /// response as sent.  The data fields are otherwise unchanged; only
    /// the observers' own state may change.
    #[verifier::loop_isolation(false)]
    pub fn send(&mut self)
        ensures
            final(self).version == old(self).version,
            final(self).status_code == old(self).status_code,
            final(self).status_msg == old(self).status_msg,
            final(self).headers == old(self).headers,
            final(self).body == old(self).body,
            final(self).to_send == true,
            final(self).response_handlers@.len() == old(self).response_handlers@.len(),
    {
        let snap = self.snapshot();
        let mut tmp: Vec<H> = Vec::new();
        while self.response_handlers.len() > 0
            invariant
                self.response_handlers@.len() + tmp@.len() == old(self).response_handlers@.len(),
                self.version == old(self).version,
                self.status_code == old(self).status_code,
                self.status_msg == old(self).status_msg,
                self.headers == old(self).headers,
                self.body == old(self).body,
                self.to_send == old(self).to_send,
            decreases self.response_handlers.len(),
        {
            let h = self.response_handlers.pop().unwrap();
            tmp.push(h);
        }
        while tmp.len() > 0
            invariant
                self.response_handlers@.len() + tmp@.len() == old(self).response_handlers@.len(),
                self.version == old(self).version,
                self.status_code == old(self).status_code,
                self.status_msg == old(self).status_msg,
                self.headers == old(self).headers,
                self.body == old(self).body,
                self.to_send == old(self).to_send,
            decreases tmp.len(),
        {
            let mut h = tmp.pop().unwrap();
            h.on_response(&snap);
            self.response_handlers.push(h);
        }
        self.to_send = true;
    }

    /// The status-message part of the status line: a space and the message
    /// when one is set.
    pub open spec fn status_part(self) -> Seq<char> {
        match self.status_msg {
            Some(m) => " "@ + m@,
            None => Seq::empty(),
        }
    }

    /// The body part: a blank line and the body when one is set.
    pub open spec fn body_part(self) -> Seq<char> {
        match self.body {
            Some(b) => "\r\n\r\n"@ + b@,
            None => Seq::empty(),
        }
    }

    /// The wire form: `HTTP/<version> <status>[ <reason>]`, each header as
    /// `\r\nName: Value` in key order, then `\r\n\r\n<body>` when a body is
    /// present.
    pub open spec fn render(self) -> Seq<char> {
        "HTTP/"@ + self.version@ + " "@ + dec_str(self.status_code as nat) + self.status_part()
            + render_headers(self.headers.entries_view()) + self.body_part()
    }

    /// Serializes the response to its wire form.
    #[verifier::loop_isolation(false)]
    pub fn to_string(&self) -> (r: String)
        ensures
            r@ == self.render(),
    {
        let mut out = "HTTP/".to_owned();
        out.append(self.version.as_str());
        out.append(" ");
        let digits = u16_to_dec(self.status_code);
        let code = string_from_chars(&digits);
        out.append(code.as_str());
        match &self.status_msg {
            Some(m) => {
                out.append(" ");
                out.append(m.as_str());
            },
            None => {},
        }
        let ghost head = "HTTP/"@ + self.version@ + " "@ + dec_str(self.status_code as nat)
            + self.status_part();
        proof {
            assert(out@ =~= head);
        }
        let hn = self.headers.len();
        let mut i: usize = 0;
        proof {
            assert(render_headers(self.headers.entries_view().subrange(0, 0)) =~= Seq::<
                char,
            >::empty());
            assert(out@ =~= head + render_headers(self.headers.entries_view().subrange(0, 0)));
        }
        while i < hn
            invariant
                i <= hn,
                out@ == head + render_headers(self.headers.entries_view().subrange(0, i as int)),
            decreases hn - i,
        {
            let kv = self.headers.entry_at(i);
            out.append("\r\n");
            out.append(kv.0.as_str());
            out.append(": ");
            out.append(kv.1.as_str());
            proof {
                let ev = self.headers.entries_view();
                assert(ev.subrange(0, i + 1).drop_last() =~= ev.subrange(0, i as int));
                assert(ev.subrange(0, i + 1).last() == ev[i as int]);
                assert(out@ =~= head + render_headers(ev.subrange(0, i + 1)));
            }
            i = i + 1;
        }
        proof {
            assert(self.headers.entries_view().subrange(0, hn as int) =~= self.headers
                .entries_view());
        }
        match &self.body {
            Some(b) => {
                out.append("\r\n\r\n");
                out.append(b.as_str());
            },
            None => {},
        }
        proof {
            assert(out@ =~= self.render());
        }
        out
    }
}

} // verus!

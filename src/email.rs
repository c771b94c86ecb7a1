use vstd::prelude::*;

use crate::text::{chars_of, string_of, trim_text, trimmed};

verus! {

/// The placeholder text `{{key}}`.
pub open spec fn placeholder(key: Seq<char>) -> Seq<char> {
    seq!['{', '{'] + key + seq!['}', '}']
}

/// Whether `t` starts with `p`.
pub open spec fn starts_with(t: Seq<char>, p: Seq<char>) -> bool {
    p.len() <= t.len() && t.take(p.len() as int) == p
}

/// The first parameter, from index `j` on, whose placeholder starts `t`.
pub open spec fn first_match(t: Seq<char>, params: Seq<(Seq<char>, Seq<char>)>, j: int) -> Option<
    int,
>
    decreases params.len() - j,
{
    if j < 0 || j >= params.len() {
        None
    } else if starts_with(t, placeholder(params[j].0)) {
        Some(j)
    } else {
        first_match(t, params, j + 1)
    }
}

/// `t` after one left-to-right pass: where the placeholder of a parameter
/// starts, its value is written and the placeholder skipped; any other
/// character is copied. A written value is never scanned again.
pub open spec fn rendered(t: Seq<char>, params: Seq<(Seq<char>, Seq<char>)>) -> Seq<char>
    decreases t.len(),
{
    if t.len() == 0 {
        t
    } else {
        match first_match(t, params, 0) {
            Some(j) => if 0 <= j < params.len() && starts_with(t, placeholder(params[j].0)) {
                params[j].1 + rendered(t.skip(placeholder(params[j].0).len() as int), params)
            } else {
                t
            },
            None => seq![t[0]] + rendered(t.skip(1), params),
        }
    }
}

pub open spec fn param_views(params: Seq<(String, String)>) -> Seq<(Seq<char>, Seq<char>)> {
    params.map_values(|p: (String, String)| (p.0@, p.1@))
}

/// The keys of the parameters are distinct.
pub open spec fn keys_distinct(params: Seq<(Seq<char>, Seq<char>)>) -> bool {
    forall|i: int, j: int| 0 <= i < j < params.len() ==> params[i].0 != params[j].0
}

proof fn lemma_first_match_found(t: Seq<char>, params: Seq<(Seq<char>, Seq<char>)>, j: int)
    requires
        0 <= j,
    ensures
        first_match(t, params, j) matches Some(k) ==> j <= k < params.len() && starts_with(
            t,
            placeholder(params[k].0),
        ),
    decreases params.len() - j,
{
    if j < params.len() && !starts_with(t, placeholder(params[j].0)) {
        lemma_first_match_found(t, params, j + 1);
    }
}

fn push_all(out: &mut Vec<char>, xs: &Vec<char>)
    ensures
        final(out)@ == old(out)@ + xs@,
{
    let mut i: usize = 0;
    while i < xs.len()
        invariant
            i <= xs.len(),
            out@ == old(out)@ + xs@.take(i as int),
        decreases xs.len() - i,
    {
        out.push(xs[i]);
        i += 1;
        assert(out@ =~= old(out)@ + xs@.take(i as int));
    }
    assert(xs@.take(i as int) =~= xs@);
}

fn occurs_at(s: &Vec<char>, i: usize, pat: &Vec<char>) -> (r: bool)
    requires
        i + pat.len() <= s.len(),
    ensures
        r == (s@.skip(i as int).take(pat@.len() as int) == pat@),
{
    let mut j: usize = 0;
    while j < pat.len()
        invariant
            i + pat.len() <= s.len(),
            j <= pat.len(),
            forall|k: int| 0 <= k < j ==> s@[i + k] == pat@[k],
        decreases pat.len() - j,
    {
        if s[i + j] != pat[j] {
            assert(s@.skip(i as int).take(pat@.len() as int)[j as int] != pat@[j as int]);
            return false;
        }
        j += 1;
    }
    assert(s@.skip(i as int).take(pat@.len() as int) =~= pat@);
    true
}

fn placeholder_of(key: &str) -> (r: Vec<char>)
    ensures
        r@ == placeholder(key@),
{
    let mut r: Vec<char> = Vec::new();
    r.push('{');
    r.push('{');
    let k = chars_of(key);
    push_all(&mut r, &k);
    r.push('}');
    r.push('}');
    assert(r@ =~= placeholder(key@));
    r
}

fn find_match(
    cs: &Vec<char>,
    i: usize,
    pats: &Vec<Vec<char>>,
    Ghost(params): Ghost<Seq<(Seq<char>, Seq<char>)>>,
) -> (r: Option<usize>)
    requires
        i <= cs.len(),
        pats.len() == params.len(),
        forall|k: int| 0 <= k < pats.len() ==> pats[k]@ == placeholder(params[k].0),
    ensures
        r matches Some(k) ==> first_match(cs@.skip(i as int), params, 0) == Some(k as int),
        r is None ==> first_match(cs@.skip(i as int), params, 0) is None,
{
    let ghost t = cs@.skip(i as int);
    let mut j: usize = 0;
    while j < pats.len()
        invariant
            i <= cs.len(),
            t == cs@.skip(i as int),
            j <= pats.len() == params.len(),
            forall|k: int| 0 <= k < pats.len() ==> pats[k]@ == placeholder(params[k].0),
            first_match(t, params, 0) == first_match(t, params, j as int),
        decreases pats.len() - j,
    {
        let p = &pats[j];
        if p.len() <= cs.len() - i && occurs_at(cs, i, p) {
            return Some(j);
        }
        j += 1;
    }
    None
}

/// Substitutes the parameters into a template string in one left-to-right
/// pass: each `{{key}}` of a parameter becomes its value, and a value written
/// is never scanned again. Placeholders without a parameter stay as they are.
pub fn render_template(template: &str, params: &Vec<(String, String)>) -> (r: String)
    requires
        keys_distinct(param_views(params@)),
    ensures
        r@ == rendered(template@, param_views(params@)),
{
    let ghost ps = param_views(params@);
    let cs = chars_of(template);
    let mut pats: Vec<Vec<char>> = Vec::new();
    let mut vals: Vec<Vec<char>> = Vec::new();
    let mut k: usize = 0;
    while k < params.len()
        invariant
            k <= params.len(),
            ps == param_views(params@),
            pats.len() == k && vals.len() == k,
            forall|m: int| 0 <= m < k ==> pats[m]@ == placeholder(ps[m].0),
            forall|m: int| 0 <= m < k ==> vals[m]@ == ps[m].1,
        decreases params.len() - k,
    {
        pats.push(placeholder_of(params[k].0.as_str()));
        vals.push(chars_of(params[k].1.as_str()));
        k += 1;
    }
    let mut out: Vec<char> = Vec::new();
    let mut i: usize = 0;
    assert(cs@.skip(0) =~= cs@);
    assert(out@ + rendered(cs@, ps) =~= rendered(cs@, ps));
    while i < cs.len()
        invariant
            i <= cs.len(),
            cs@ == template@,
            pats.len() == ps.len() && vals.len() == ps.len(),
            forall|m: int| 0 <= m < ps.len() ==> pats[m]@ == placeholder(ps[m].0),
            forall|m: int| 0 <= m < ps.len() ==> vals[m]@ == ps[m].1,
            out@ + rendered(cs@.skip(i as int), ps) == rendered(cs@, ps),
        decreases cs.len() - i,
    {
        let ghost rest = cs@.skip(i as int);
        let ghost before = out@;
        proof {
            lemma_first_match_found(rest, ps, 0);
        }
        match find_match(&cs, i, &pats, Ghost(ps)) {
            Some(j) => {
                push_all(&mut out, &vals[j]);
                let n = pats[j].len();
                assert(rest.skip(n as int) =~= cs@.skip(i + n));
                assert(out@ + rendered(cs@.skip(i + n), ps) =~= before + rendered(rest, ps));
                i += n;
            },
            None => {
                out.push(cs[i]);
                assert(rest.skip(1) =~= cs@.skip(i + 1));
                assert(out@ + rendered(cs@.skip(i + 1), ps) =~= before + rendered(rest, ps));
                i += 1;
            },
        }
    }
    assert(cs@.skip(i as int) =~= Seq::<char>::empty());
    assert(out@ + rendered(cs@.skip(i as int), ps) =~= out@);
    string_of(&out)
}

pub open spec fn is_alnum(c: char) -> bool {
    ('a' <= c && c <= 'z') || ('A' <= c && c <= 'Z') || ('0' <= c && c <= '9')
}

/// A character allowed before the `@` of an address.
pub open spec fn is_local_char(c: char) -> bool {
    is_alnum(c) || c == '_' || c == '.' || c == '+' || c == '-'
}

/// A character allowed after the `@` of an address.
pub open spec fn is_domain_char(c: char) -> bool {
    is_alnum(c) || c == '-' || c == '.'
}

/// A domain: letters, digits, `-` and `.`, whose first `.` has at least one
/// character before it and one after it.
pub open spec fn is_domain(d: Seq<char>) -> bool {
    &&& forall|i: int| 0 <= i < d.len() ==> is_domain_char(#[trigger] d[i])
    &&& exists|j: int|
        1 <= j && j + 2 <= d.len() && #[trigger] d[j] == '.' && forall|i: int|
            0 <= i < j ==> d[i] != '.'
}

/// An address `local@domain`, with a non-empty local part.
pub open spec fn is_address(a: Seq<char>) -> bool {
    exists|k: int|
        0 < k < a.len() && #[trigger] a[k] == '@' && (forall|i: int|
            0 <= i < k ==> is_local_char(a[i])) && is_domain(a.skip(k + 1))
}

/// The position of the last `<` before `end`, or -1.
pub open spec fn last_open_before(t: Seq<char>, end: int) -> int
    decreases end,
{
    if end <= 0 {
        -1
    } else if t[end - 1] == '<' {
        end - 1
    } else {
        last_open_before(t, end - 1)
    }
}

/// The raw name and the address of a text of the form `name <address>`: the
/// text ends with `>`, the address stands between the last `<` and that `>`,
/// and the name is the non-empty run of characters other than `<` just
/// before it.
pub open spec fn named_parts(t: Seq<char>) -> Option<(Seq<char>, Seq<char>)> {
    if t.len() == 0 || t.last() != '>' {
        None
    } else {
        let p = last_open_before(t, t.len() - 1);
        let q = last_open_before(t, p);
        let name = t.subrange(q + 1, p);
        let addr = t.subrange(p + 1, t.len() - 1);
        if p >= 0 && name.len() > 0 && is_address(addr) {
            Some((name, addr))
        } else {
            None
        }
    }
}

/// The display name (trimmed) and the address that a trimmed text stands for:
/// first as `name <address>`, then as a bare address.
pub open spec fn parsed_mailbox(t: Seq<char>) -> Option<(Option<Seq<char>>, Seq<char>)> {
    match named_parts(t) {
        Some((n, a)) => Some((Some(trimmed(n)), a)),
        None => if is_address(t) {
            Some((None, t))
        } else {
            None
        },
    }
}

fn is_alnum_char(c: char) -> (r: bool)
    ensures
        r == is_alnum(c),
{
    ('a' <= c && c <= 'z') || ('A' <= c && c <= 'Z') || ('0' <= c && c <= '9')
}

fn is_domain_at(s: &Vec<char>, lo: usize) -> (r: bool)
    requires
        lo <= s.len(),
    ensures
        r == is_domain(s@.skip(lo as int)),
{
    let ghost d = s@.skip(lo as int);
    let mut i: usize = lo;
    let mut first_dot: usize = s.len();
    while i < s.len()
        invariant
            lo <= i <= s.len(),
            first_dot <= s.len(),
            d == s@.skip(lo as int),
            forall|k: int| 0 <= k < i - lo ==> is_domain_char(#[trigger] d[k]),
            first_dot == s.len() ==> forall|k: int| 0 <= k < i - lo ==> d[k] != '.',
            first_dot < s.len() ==> lo <= first_dot < i && d[first_dot - lo] == '.' && forall|
                k: int,
            | 0 <= k < first_dot - lo ==> d[k] != '.',
        decreases s.len() - i,
    {
        let c = s[i];
        assert(d[i - lo] == c);
        if !(is_alnum_char(c) || c == '-' || c == '.') {
            return false;
        }
        if c == '.' && first_dot == s.len() {
            first_dot = i;
        }
        i += 1;
    }
    if first_dot == s.len() {
        return false;
    }
    if first_dot - lo >= 1 && s.len() - first_dot >= 2 {
        assert(d[first_dot - lo] == '.');
        true
    } else {
        let ghost fd = first_dot - lo;
        assert forall|j: int|
            1 <= j && j + 2 <= d.len() && #[trigger] d[j] == '.' implies !(forall|k: int|
            0 <= k < j ==> d[k] != '.') by {
            if j > fd {
                assert(0 <= fd < j && d[fd] == '.');
            } else if j < fd {
                assert(d[j] != '.');
            } else {
                assert(d.len() == s.len() - lo);
            }
        }
        false
    }
}

fn is_address_in(s: &Vec<char>, lo: usize, hi: usize) -> (r: bool)
    requires
        lo <= hi <= s.len(),
    ensures
        r == is_address(s@.subrange(lo as int, hi as int)),
{
    let ghost a = s@.subrange(lo as int, hi as int);
    let sub = slice_chars(s, lo, hi);
    let mut k: usize = 0;
    while k < sub.len() && sub[k] != '@'
        invariant
            k <= sub.len(),
            lo <= hi <= s.len(),
            a == s@.subrange(lo as int, hi as int),
            sub@ == a,
            forall|i: int| 0 <= i < k ==> a[i] != '@',
        decreases sub.len() - k,
    {
        k += 1;
    }
    if k == 0 || k == sub.len() {
        assert forall|m: int|
            0 < m < a.len() && #[trigger] a[m] == '@' implies !(forall|i: int|
            0 <= i < m ==> is_local_char(a[i])) by {
            assert(k == 0);
            assert(!is_local_char(a[0]));
        }
        return false;
    }
    let mut j: usize = 0;
    while j < k
        invariant
            j <= k < sub.len(),
            lo <= hi <= s.len(),
            a == s@.subrange(lo as int, hi as int),
            sub@ == a,
            sub@[k as int] == '@',
            forall|i: int| 0 <= i < k ==> a[i] != '@',
            forall|i: int| 0 <= i < j ==> is_local_char(a[i]),
        decreases k - j,
    {
        let c = sub[j];
        if !(is_alnum_char(c) || c == '_' || c == '.' || c == '+' || c == '-') {
            assert forall|m: int|
                0 < m < a.len() && #[trigger] a[m] == '@' implies !(forall|i: int|
                0 <= i < m ==> is_local_char(a[i])) by {
                assert(m >= k);
                assert(0 <= j < m);
                assert(!is_local_char(a[j as int]));
            }
            return false;
        }
        j += 1;
    }
    let r = is_domain_at(&sub, k + 1);
    if !r {
        assert forall|m: int|
            0 < m < a.len() && #[trigger] a[m] == '@' implies !((forall|i: int|
            0 <= i < m ==> is_local_char(a[i])) && is_domain(a.skip(m + 1))) by {
            if m > k {
                assert(!is_local_char(a[k as int]));
            }
        }
    }
    r
}

fn slice_chars(s: &Vec<char>, lo: usize, hi: usize) -> (r: Vec<char>)
    requires
        lo <= hi <= s.len(),
    ensures
        r@ == s@.subrange(lo as int, hi as int),
{
    let mut r: Vec<char> = Vec::new();
    let mut i: usize = lo;
    while i < hi
        invariant
            lo <= i <= hi <= s.len(),
            r@ == s@.subrange(lo as int, i as int),
        decreases hi - i,
    {
        r.push(s[i]);
        i += 1;
    }
    r
}

fn find_last_open(t: &Vec<char>, end: usize) -> (r: Option<usize>)
    requires
        end <= t.len(),
    ensures
        r matches Some(p) ==> p == last_open_before(t@, end as int) && p < end,
        r is None ==> last_open_before(t@, end as int) == -1,
{
    let mut i: usize = end;
    while i > 0
        invariant
            i <= end <= t.len(),
            last_open_before(t@, end as int) == last_open_before(t@, i as int),
        decreases i,
    {
        if t[i - 1] == '<' {
            return Some(i - 1);
        }
        i -= 1;
    }
    None
}

/// A mailbox: an optional display name and an address.
#[derive(Debug)]
pub struct Mailbox {
    pub name: Option<String>,
    pub address: String,
}

/// Why a notification could not be prepared or sent.
#[derive(Debug)]
pub enum NotificationError {
    /// An address text that is neither `name <address>` nor a bare address.
    InvalidAddress(String),
    /// A template file that breaks the header convention.
    InvalidTemplate(String),
    /// The message could not be built or delivered.
    Delivery(String),
    /// A template file could not be read.
    Read(String),
}

impl NotificationError {
    /// The text shown to the user for this error.
    pub fn message(&self) -> (r: String)
        ensures
            r@ == match self {
                NotificationError::InvalidAddress(m) => m@,
                NotificationError::InvalidTemplate(m) => m@,
                NotificationError::Delivery(m) => m@,
                NotificationError::Read(m) => m@,
            },
    {
        match self {
            NotificationError::InvalidAddress(m) => m.clone(),
            NotificationError::InvalidTemplate(m) => m.clone(),
            NotificationError::Delivery(m) => m.clone(),
            NotificationError::Read(m) => m.clone(),
        }
    }
}

/// Whether a mailbox holds the given name and address.
pub open spec fn mailbox_is(m: Mailbox, name: Option<Seq<char>>, address: Seq<char>) -> bool {
    &&& m.address@ == address
    &&& match (m.name, name) {
        (Some(x), Some(y)) => x@ == y,
        (None, None) => true,
        _ => false,
    }
}

pub open spec fn msg_invalid_email(input: Seq<char>) -> Seq<char> {
    "Invalid email: '"@ + input + "'"@
}

/// What parsing the trimmed text `t` of `input` gives: the mailbox it stands
/// for, or an error that quotes `input`.
pub open spec fn parse_outcome(
    r: Result<Mailbox, NotificationError>,
    t: Seq<char>,
    input: Seq<char>,
) -> bool {
    match parsed_mailbox(t) {
        Some((n, a)) => r matches Ok(m) && mailbox_is(m, n, a),
        None => r matches Err(NotificationError::InvalidAddress(msg)) && msg@ == msg_invalid_email(
            input,
        ),
    }
}

/// Parses an already trimmed address text `t`; an error quotes `input`, the
/// text as the user wrote it.
pub fn parse_mailbox(t: &str, input: &str) -> (r: Result<Mailbox, NotificationError>)
    ensures
        parse_outcome(r, t@, input@),
{
    let cs = chars_of(t);
    let n = cs.len();
    if n > 0 && cs[n - 1] == '>' {
        match find_last_open(&cs, n - 1) {
            Some(p) => {
                let start: usize = match find_last_open(&cs, p) {
                    Some(q) => q + 1,
                    None => 0,
                };
                if start < p && is_address_in(&cs, p + 1, n - 1) {
                    let raw = string_of(&slice_chars(&cs, start, p));
                    let name = trim_text(raw.as_str());
                    let address = string_of(&slice_chars(&cs, p + 1, n - 1));
                    return Ok(Mailbox { name: Some(name), address });
                }
            },
            None => {},
        }
    }
    if is_address_in(&cs, 0, n) {
        assert(cs@.subrange(0, n as int) =~= t@);
        let address = string_of(&cs);
        return Ok(Mailbox { name: None, address });
    }
    proof {
        assert(cs@.subrange(0, n as int) =~= t@);
        reveal_strlit("Invalid email: '");
        reveal_strlit("'");
    }
    let mut msg = String::from_str("Invalid email: '");
    msg.append(input);
    msg.append("'");
    Err(NotificationError::InvalidAddress(msg))
}

/// Parses an address as `name <address>` or as a bare address, after
/// trimming the text; the display name is trimmed too.
pub fn parse_email_address(email: &str) -> (r: Result<Mailbox, NotificationError>)
    ensures
        parse_outcome(r, trimmed(email@), email@),
{
    let t = trim_text(email);
    parse_mailbox(t.as_str(), email)
}

/// The index just past the line that starts at `from`: past its `\n`, or the
/// end of the text.
pub open spec fn line_end(t: Seq<char>, from: int) -> int
    decreases t.len() - from,
{
    if from >= t.len() {
        t.len() as int
    } else if t[from] == '\n' {
        from + 1
    } else {
        line_end(t, from + 1)
    }
}

/// A separator line: nothing but line-ending characters.
pub open spec fn is_blank_separator(line: Seq<char>) -> bool {
    forall|i: int| 0 <= i < line.len() ==> (#[trigger] line[i] == '\r' || line[i] == '\n')
}

pub open spec fn msg_no_subject() -> Seq<char> {
    "The first line must be a message Subject"@
}

pub open spec fn msg_second_line() -> Seq<char> {
    "The second line must be empty"@
}

/// A template: a subject and a body, each of which may hold `{{key}}`
/// placeholders.
#[derive(Debug)]
pub struct EmailTemplate {
    pub subject: String,
    pub body: String,
}

/// What building a template from a trimmed subject line, a separator line and
/// a body gives.
pub open spec fn template_outcome(
    r: Result<EmailTemplate, NotificationError>,
    subject: Seq<char>,
    separator: Seq<char>,
    body: Seq<char>,
) -> bool {
    if subject.len() == 0 {
        r matches Err(NotificationError::InvalidTemplate(m)) && m@ == msg_no_subject()
    } else if !is_blank_separator(separator) {
        r matches Err(NotificationError::InvalidTemplate(m)) && m@ == msg_second_line()
    } else {
        r matches Ok(t) && t.subject@ == subject && t.body@ == body
    }
}

/// The three parts of a template file's text: its first line, its second
/// line, and the rest.
pub open spec fn template_lines(text: Seq<char>) -> (Seq<char>, Seq<char>, Seq<char>) {
    let e1 = line_end(text, 0);
    let e2 = line_end(text, e1);
    (text.subrange(0, e1), text.subrange(e1, e2), text.subrange(e2, text.len() as int))
}

proof fn lemma_line_end_bounds(t: Seq<char>, from: int)
    requires
        0 <= from <= t.len(),
    ensures
        from <= line_end(t, from) <= t.len(),
    decreases t.len() - from,
{
    if from < t.len() && t[from] != '\n' {
        lemma_line_end_bounds(t, from + 1);
    }
}

fn find_line_end(t: &Vec<char>, from: usize) -> (r: usize)
    requires
        from <= t.len(),
    ensures
        r == line_end(t@, from as int),
{
    let mut i: usize = from;
    while i < t.len() && t[i] != '\n'
        invariant
            from <= i <= t.len(),
            line_end(t@, from as int) == line_end(t@, i as int),
        decreases t.len() - i,
    {
        i += 1;
    }
    if i < t.len() {
        i + 1
    } else {
        i
    }
}

fn is_blank_line(line: &Vec<char>) -> (r: bool)
    ensures
        r == is_blank_separator(line@),
{
    let mut i: usize = 0;
    while i < line.len()
        invariant
            i <= line.len(),
            forall|k: int| 0 <= k < i ==> (#[trigger] line@[k] == '\r' || line@[k] == '\n'),
        decreases line.len() - i,
    {
        if line[i] != '\r' && line[i] != '\n' {
            return false;
        }
        i += 1;
    }
    true
}

fn template_error(message: &str) -> (r: Result<EmailTemplate, NotificationError>)
    ensures
        r matches Err(NotificationError::InvalidTemplate(m)) && m@ == message@,
{
    Err(NotificationError::InvalidTemplate(String::from_str(message)))
}

impl EmailTemplate {
    /// A template from a subject and a body, as given.
    pub fn new(subject: &str, body: &str) -> (r: EmailTemplate)
        ensures
            r.subject@ == subject@,
            r.body@ == body@,
    {
        EmailTemplate { subject: String::from_str(subject), body: String::from_str(body) }
    }

    /// A template from the parts of a template file: the subject line already
    /// trimmed, the separator line, and the body. The subject must not be
    /// empty, and the separator must hold nothing but line endings.
    pub fn from_parts(subject: &str, separator: &str, body: &str) -> (r: Result<
        EmailTemplate,
        NotificationError,
    >)
        ensures
            template_outcome(r, subject@, separator@, body@),
    {
        proof {
            reveal_strlit("The first line must be a message Subject");
            reveal_strlit("The second line must be empty");
        }
        if subject.unicode_len() == 0 {
            return template_error("The first line must be a message Subject");
        }
        let sep = chars_of(separator);
        if !is_blank_line(&sep) {
            return template_error("The second line must be empty");
        }
        Ok(EmailTemplate::new(subject, body))
    }

    /// A template from the text of a template file: the first line, trimmed,
    /// is the subject; the second line must be empty; the rest, verbatim, is
    /// the body.
    pub fn parse(text: &str) -> (r: Result<EmailTemplate, NotificationError>)
        ensures
            ({
                let (first, second, rest) = template_lines(text@);
                template_outcome(r, trimmed(first), second, rest)
            }),
    {
        let cs = chars_of(text);
        let e1 = find_line_end(&cs, 0);
        proof {
            lemma_line_end_bounds(text@, 0);
            lemma_line_end_bounds(text@, e1 as int);
        }
        let e2 = find_line_end(&cs, e1);
        let first = string_of(&slice_chars(&cs, 0, e1));
        let second = string_of(&slice_chars(&cs, e1, e2));
        let rest = string_of(&slice_chars(&cs, e2, cs.len()));
        let subject = trim_text(first.as_str());
        EmailTemplate::from_parts(subject.as_str(), second.as_str(), rest.as_str())
    }

    /// The subject and the body with the parameters substituted; this never
    /// fails.
    pub fn render(&self, params: &Vec<(String, String)>) -> (r: Result<
        (String, String),
        NotificationError,
    >)
        requires
            keys_distinct(param_views(params@)),
        ensures
            r matches Ok(p) && p.0@ == rendered(self.subject@, param_views(params@)) && p.1@
                == rendered(self.body@, param_views(params@)),
    {
        let subject = render_template(self.subject.as_str(), params);
        let body = render_template(self.body.as_str(), params);
        Ok((subject, body))
    }
}

pub open spec fn name_view(m: Mailbox) -> Option<Seq<char>> {
    match m.name {
        Some(n) => Some(n@),
        None => None,
    }
}

impl Mailbox {
    /// A copy of this mailbox.
    pub fn duplicate(&self) -> (r: Mailbox)
        ensures
            mailbox_is(r, name_view(*self), self.address@),
    {
        let name = match &self.name {
            Some(n) => Some(n.clone()),
            None => None,
        };
        Mailbox { name, address: self.address.clone() }
    }
}

/// The sender and the recipient of notifications.
#[derive(Debug)]
pub struct Mailer {
    pub from: Mailbox,
    pub to: Mailbox,
}

/// A message ready to be handed to a transport.
#[derive(Debug)]
pub struct OutboundMessage {
    pub from: Mailbox,
    pub to: Mailbox,
    pub subject: String,
    pub body: String,
}

/// What building a mailer from two address texts gives: both mailboxes, or
/// the error of the first text that is not an address.
pub open spec fn mailer_outcome(
    r: Result<Mailer, NotificationError>,
    from: Seq<char>,
    to: Seq<char>,
) -> bool {
    match (parsed_mailbox(trimmed(from)), parsed_mailbox(trimmed(to))) {
        (Some((fname, faddr)), Some((tname, taddr))) => r matches Ok(m) && mailbox_is(
            m.from,
            fname,
            faddr,
        ) && mailbox_is(m.to, tname, taddr),
        (None, _) => r matches Err(NotificationError::InvalidAddress(msg)) && msg@
            == msg_invalid_email(from),
        (Some(_), None) => r matches Err(NotificationError::InvalidAddress(msg)) && msg@
            == msg_invalid_email(to),
    }
}

/// What a send gives for a transport's outcome: success, or a delivery error
/// that carries the transport's message.
pub open spec fn delivery_is(r: Result<(), NotificationError>, outcome: Result<(), Seq<char>>) -> bool {
    match outcome {
        Ok(()) => r is Ok,
        Err(e) => r matches Err(NotificationError::Delivery(m)) && m@ == e,
    }
}

/// Turns a transport's outcome into the result of a send.
pub fn delivery_outcome(outcome: Result<(), String>) -> (r: Result<(), NotificationError>)
    ensures
        delivery_is(
            r,
            match outcome {
                Ok(()) => Ok(()),
                Err(e) => Err(e@),
            },
        ),
{
    match outcome {
        Ok(()) => Ok(()),
        Err(e) => Err(NotificationError::Delivery(e)),
    }
}

impl Mailer {
    /// A mailer from a sender and a recipient address text; it fails on the
    /// first text that is not an address.
    pub fn new(from: &str, to: &str) -> (r: Result<Mailer, NotificationError>)
        ensures
            mailer_outcome(r, from@, to@),
    {
        let from_box = match parse_email_address(from) {
            Ok(m) => m,
            Err(e) => return Err(e),
        };
        let to_box = match parse_email_address(to) {
            Ok(m) => m,
            Err(e) => return Err(e),
        };
        Ok(Mailer { from: from_box, to: to_box })
    }

    /// The message from this mailer's sender to its recipient with the given
    /// subject and body.
    pub fn compose(&self, subject: &str, body: &str) -> (r: OutboundMessage)
        ensures
            mailbox_is(r.from, name_view(self.from), self.from.address@),
            mailbox_is(r.to, name_view(self.to), self.to.address@),
            r.subject@ == subject@,
            r.body@ == body@,
    {
        OutboundMessage {
            from: self.from.duplicate(),
            to: self.to.duplicate(),
            subject: String::from_str(subject),
            body: String::from_str(body),
        }
    }
}

impl EmailTemplate {
    /// The message that this template gives for the parameters, from the
    /// mailer's sender to its recipient.
    pub fn prepare(&self, mailer: &Mailer, params: &Vec<(String, String)>) -> (r: OutboundMessage)
        requires
            keys_distinct(param_views(params@)),
        ensures
            mailbox_is(r.from, name_view(mailer.from), mailer.from.address@),
            mailbox_is(r.to, name_view(mailer.to), mailer.to.address@),
            r.subject@ == rendered(self.subject@, param_views(params@)),
            r.body@ == rendered(self.body@, param_views(params@)),
    {
        let subject = render_template(self.subject.as_str(), params);
        let body = render_template(self.body.as_str(), params);
        mailer.compose(subject.as_str(), body.as_str())
    }
}

/// Rendering with no parameters leaves a template string as it is.
pub proof fn lemma_render_without_params(s: Seq<char>)
    ensures
        rendered(s, Seq::empty()) == s,
    decreases s.len(),
{
    if s.len() > 0 {
        lemma_render_without_params(s.skip(1));
        assert(seq![s[0]] + s.skip(1) =~= s);
    }
}

/// A bare address stands for a mailbox without a display name.
pub proof fn lemma_bare_address_parsed(t: Seq<char>)
    requires
        is_address(t),
    ensures
        parsed_mailbox(t) == Some((None::<Seq<char>>, t)),
{
    let k = choose|k: int|
        0 < k < t.len() && #[trigger] t[k] == '@' && (forall|i: int|
            0 <= i < k ==> is_local_char(t[i])) && is_domain(t.skip(k + 1));
    let d = t.skip(k + 1);
    assert(d[d.len() - 1] == t.last());
    assert(is_domain_char(d[d.len() - 1]));
}

/// A mailer built from two address texts that parse is always built, and a
/// send through a transport that accepts the message always succeeds.
pub proof fn lemma_valid_addresses_send(from: Seq<char>, to: Seq<char>)
    requires
        parsed_mailbox(trimmed(from)) is Some,
        parsed_mailbox(trimmed(to)) is Some,
    ensures
        forall|r: Result<Mailer, NotificationError>| #[trigger]
            mailer_outcome(r, from, to) ==> r is Ok,
        forall|r: Result<(), NotificationError>| #[trigger] delivery_is(r, Ok(())) ==> r is Ok,
{
}

proof fn lemma_first_match_none(t: Seq<char>, params: Seq<(Seq<char>, Seq<char>)>, j: int)
    requires
        0 <= j,
        first_match(t, params, j) is None,
    ensures
        forall|k: int| j <= k < params.len() ==> !starts_with(t, placeholder(#[trigger] params[k].0)),
    decreases params.len() - j,
{
    if j < params.len() {
        lemma_first_match_none(t, params, j + 1);
    }
}

proof fn lemma_first_match_extended(
    t: Seq<char>,
    params: Seq<(Seq<char>, Seq<char>)>,
    extra: (Seq<char>, Seq<char>),
    j: int,
)
    requires
        0 <= j <= params.len(),
        !starts_with(t, placeholder(extra.0)),
    ensures
        first_match(t, params.push(extra), j) == first_match(t, params, j),
    decreases params.len() - j,
{
    if j < params.len() {
        assert(params.push(extra)[j] == params[j]);
        lemma_first_match_extended(t, params, extra, j + 1);
    } else {
        assert(params.push(extra)[j] == extra);
        assert(first_match(t, params.push(extra), j + 1) is None);
    }
}

/// A parameter whose placeholder does not occur in a template string does
/// not change what the string renders to.
pub proof fn lemma_render_unused_param(
    t: Seq<char>,
    params: Seq<(Seq<char>, Seq<char>)>,
    extra: (Seq<char>, Seq<char>),
)
    requires
        forall|i: int| 0 <= i <= t.len() ==> !starts_with(#[trigger] t.skip(i), placeholder(extra.0)),
    ensures
        rendered(t, params.push(extra)) == rendered(t, params),
    decreases t.len(),
{
    if t.len() > 0 {
        assert(t.skip(0) =~= t);
        lemma_first_match_extended(t, params, extra, 0);
        lemma_first_match_found(t, params, 0);
        let n: int = match first_match(t, params, 0) {
            Some(j) => placeholder(params[j].0).len() as int,
            None => 1,
        };
        let rest = t.skip(n);
        assert forall|i: int| 0 <= i <= rest.len() implies !starts_with(
            #[trigger] rest.skip(i),
            placeholder(extra.0),
        ) by {
            assert(rest.skip(i) =~= t.skip(n + i));
        }
        lemma_render_unused_param(rest, params, extra);
        match first_match(t, params, 0) {
            Some(j) => {
                assert(params.push(extra)[j] == params[j]);
            },
            None => {},
        }
    }
}

/// A key without braces.
pub open spec fn brace_free(k: Seq<char>) -> bool {
    forall|i: int| 0 <= i < k.len() ==> k[i] != '{' && k[i] != '}'
}

proof fn lemma_placeholder_unique(t: Seq<char>, k1: Seq<char>, k2: Seq<char>)
    requires
        brace_free(k1),
        brace_free(k2),
        starts_with(t, placeholder(k1)),
        starts_with(t, placeholder(k2)),
    ensures
        k1 == k2,
{
    let p1 = placeholder(k1);
    let p2 = placeholder(k2);
    assert forall|i: int| 0 <= i < p1.len() implies t[i] == p1[i] by {
        assert(t.take(p1.len() as int)[i] == t[i]);
    }
    assert forall|i: int| 0 <= i < p2.len() implies t[i] == p2[i] by {
        assert(t.take(p2.len() as int)[i] == t[i]);
    }
    if k1.len() < k2.len() {
        assert(p1[2 + k1.len() as int] == '}');
        assert(p2[2 + k1.len() as int] == k2[k1.len() as int]);
    } else if k2.len() < k1.len() {
        assert(p2[2 + k2.len() as int] == '}');
        assert(p1[2 + k2.len() as int] == k1[k2.len() as int]);
    } else {
        assert forall|i: int| 0 <= i < k1.len() implies k1[i] == k2[i] by {
            assert(p1[2 + i] == k1[i]);
            assert(p2[2 + i] == k2[i]);
        }
        assert(k1 =~= k2);
    }
}

/// With distinct keys that hold no braces, at most one placeholder starts at
/// any position, so what a template string renders to does not depend on the
/// order in which the parameters are listed.
pub proof fn lemma_render_order_free(
    t: Seq<char>,
    ps1: Seq<(Seq<char>, Seq<char>)>,
    ps2: Seq<(Seq<char>, Seq<char>)>,
)
    requires
        keys_distinct(ps1),
        keys_distinct(ps2),
        forall|i: int| 0 <= i < ps1.len() ==> brace_free(#[trigger] ps1[i].0),
        forall|i: int| 0 <= i < ps1.len() ==> ps2.contains(#[trigger] ps1[i]),
        forall|i: int| 0 <= i < ps2.len() ==> ps1.contains(#[trigger] ps2[i]),
    ensures
        rendered(t, ps1) == rendered(t, ps2),
    decreases t.len(),
{
    if t.len() > 0 {
        lemma_first_match_found(t, ps1, 0);
        lemma_first_match_found(t, ps2, 0);
        match first_match(t, ps1, 0) {
            Some(j1) => {
                assert(ps2.contains(ps1[j1]));
                let j = choose|j: int| 0 <= j < ps2.len() && ps2[j] == ps1[j1];
                if first_match(t, ps2, 0) is None {
                    lemma_first_match_none(t, ps2, 0);
                    assert(!starts_with(t, placeholder(ps2[j].0)));
                }
                let j2 = first_match(t, ps2, 0)->Some_0;
                assert(ps1.contains(ps2[j2]));
                let i2 = choose|i: int| 0 <= i < ps1.len() && ps1[i] == ps2[j2];
                assert(brace_free(ps1[i2].0));
                lemma_placeholder_unique(t, ps1[j1].0, ps2[j2].0);
                assert(j2 == j);
                lemma_render_order_free(t.skip(placeholder(ps1[j1].0).len() as int), ps1, ps2);
            },
            None => {
                lemma_first_match_none(t, ps1, 0);
                if first_match(t, ps2, 0) is Some {
                    let j2 = first_match(t, ps2, 0)->Some_0;
                    assert(ps1.contains(ps2[j2]));
                    let i2 = choose|i: int| 0 <= i < ps1.len() && ps1[i] == ps2[j2];
                    assert(!starts_with(t, placeholder(ps1[i2].0)));
                }
                lemma_render_order_free(t.skip(1), ps1, ps2);
            },
        }
    }
}

} // verus!

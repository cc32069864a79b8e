//! Header fields: an association list with one value per name, where a
//! later value for a name replaces the earlier one.

use vstd::prelude::*;
use vstd::utf8::*;

use vstd::slice::slice_subrange;

use crate::text::{
    bytes_eq, decode_range, lemma_ascii_bounded_piece, lemma_find_blank_line_from, lemma_scan_crlf,
    lemma_scan_to, scan_crlf_exec, scan_exec, split_lines, split_lines_from, split_once, trim,
    trim_str, utf8_str, find_blank_line, push_str, push_bytes, LF, CR, SP, no_byte, no_char,
    lemma_encode_no_byte, lemma_encode_concat, lemma_ascii_valid, lemma_split_lines_append,
    lemma_split_lines_single, lemma_trim_leading_space, lemma_scan_to_at, blank_line_at,
    lemma_find_blank_line_at,
};
use crate::http::request::ParseError;

verus! {

broadcast use vstd::utf8::group_utf8_lib;

/// Header fields as (name, value) pairs of characters.
pub type Fields = Seq<(Seq<char>, Seq<char>)>;

/// Whether some field is named `k`.
pub open spec fn has_name(es: Fields, k: Seq<char>) -> bool {
    exists|i: int| 0 <= i < es.len() && (#[trigger] es[i]).0 == k
}

/// The position of the field named `k`.
pub open spec fn name_index(es: Fields, k: Seq<char>) -> int
    recommends
        has_name(es, k),
{
    choose|i: int| 0 <= i < es.len() && (#[trigger] es[i]).0 == k
}

/// No two fields share a name.
pub open spec fn names_distinct(es: Fields) -> bool {
    forall|i: int, j: int| 0 <= i < j < es.len() ==> (#[trigger] es[i]).0 != (#[trigger] es[j]).0
}

/// The value stored under `k`.
pub open spec fn lookup(es: Fields, k: Seq<char>) -> Option<Seq<char>> {
    if has_name(es, k) {
        Some(es[name_index(es, k)].1)
    } else {
        None
    }
}

/// The fields after storing `v` under `k`: an existing field keeps its place
/// and takes the new value; otherwise the field goes at the end.
pub open spec fn insert_field(es: Fields, k: Seq<char>, v: Seq<char>) -> Fields {
    if has_name(es, k) {
        es.update(name_index(es, k), (k, v))
    } else {
        es.push((k, v))
    }
}

pub proof fn lemma_name_index(es: Fields, k: Seq<char>, i: int)
    requires
        names_distinct(es),
        0 <= i < es.len(),
        es[i].0 == k,
    ensures
        has_name(es, k),
        name_index(es, k) == i,
{
    assert(has_name(es, k));
    let j = name_index(es, k);
    if j != i {
        if j < i {
            assert(es[j].0 != es[i].0);
        } else {
            assert(es[i].0 != es[j].0);
        }
    }
}

/// Storing keeps the names distinct.
pub proof fn lemma_insert_distinct(es: Fields, k: Seq<char>, v: Seq<char>)
    requires
        names_distinct(es),
    ensures
        names_distinct(insert_field(es, k, v)),
{
    let r = insert_field(es, k, v);
    if has_name(es, k) {
        let n = name_index(es, k);
        assert forall|i: int, j: int| 0 <= i < j < r.len() implies (#[trigger] r[i]).0 != (
        #[trigger] r[j]).0 by {
            if i == n {
                assert(es[j].0 != es[n].0);
            } else if j == n {
                assert(es[i].0 != es[n].0);
            } else {
                assert(es[i].0 != es[j].0);
            }
        }
    } else {
        assert forall|i: int, j: int| 0 <= i < j < r.len() implies (#[trigger] r[i]).0 != (
        #[trigger] r[j]).0 by {
            if j == es.len() {
                assert(es[i].0 != k);
            } else {
                assert(es[i].0 != es[j].0);
            }
        }
    }
}

/// What is read under a name after a store is what was stored; every other
/// name reads as before.
pub proof fn lemma_lookup_insert(es: Fields, k: Seq<char>, v: Seq<char>, q: Seq<char>)
    requires
        names_distinct(es),
    ensures
        lookup(insert_field(es, k, v), q) == if q == k {
            Some(v)
        } else {
            lookup(es, q)
        },
{
    let r = insert_field(es, k, v);
    lemma_insert_distinct(es, k, v);
    if has_name(es, k) {
        let n = name_index(es, k);
        lemma_name_index(es, k, n);
        if q == k {
            lemma_name_index(r, k, n);
        } else if has_name(es, q) {
            let m = name_index(es, q);
            lemma_name_index(es, q, m);
            lemma_name_index(r, q, m);
        } else {
            if has_name(r, q) {
                let m = name_index(r, q);
                assert(es[m].0 == q);
            }
        }
    } else {
        let n = es.len() as int;
        if q == k {
            lemma_name_index(r, k, n);
        } else if has_name(es, q) {
            let m = name_index(es, q);
            lemma_name_index(es, q, m);
            lemma_name_index(r, q, m);
        } else {
            if has_name(r, q) {
                let m = name_index(r, q);
                assert(es[m].0 == q);
            }
        }
    }
}

/// The header fields of a request or a response.
pub struct HeaderMap {
    entries: Vec<(String, String)>,
}

impl View for HeaderMap {
    type V = Fields;

    closed spec fn view(&self) -> Fields {
        self.entries@.map_values(|e: (String, String)| (e.0@, e.1@))
    }
}

impl HeaderMap {
    #[verifier::type_invariant]
    spec fn wf(self) -> bool {
        names_distinct(self@)
    }

    /// An empty set of fields.
    pub fn new() -> (m: Self)
        ensures
            m@ == Seq::<(Seq<char>, Seq<char>)>::empty(),
    {
        let m = HeaderMap { entries: Vec::new() };
        assert(m@ =~= Seq::<(Seq<char>, Seq<char>)>::empty());
        m
    }

    /// The number of fields.
    pub fn len(&self) -> (n: usize)
        ensures
            n == self@.len(),
    {
        self.entries.len()
    }

    pub fn is_empty(&self) -> (b: bool)
        ensures
            b == (self@.len() == 0),
    {
        self.entries.len() == 0
    }

    /// The name and the value of the field at position `i`.
    pub fn entry(&self, i: usize) -> (r: (&String, &String))
        requires
            i < self@.len(),
        ensures
            r.0@ == self@[i as int].0,
            r.1@ == self@[i as int].1,
    {
        let e = &self.entries[i];
        (&e.0, &e.1)
    }

    /// Where the field named `key` stands, if one does.
    fn position(&self, key: &str) -> (r: Option<usize>)
        ensures
            match r {
                Some(i) => i < self@.len() && self@[i as int].0 == key@,
                None => !has_name(self@, key@),
            },
    {
        let kb = key.as_bytes();
        let mut i: usize = 0;
        while i < self.entries.len()
            invariant
                i <= self@.len(),
                self@.len() == self.entries@.len(),
                kb@ == encode_utf8(key@),
                forall|j: int| 0 <= j < i ==> self@[j].0 != key@,
            decreases self@.len() - i,
        {
            let name = self.entries[i].0.as_str();
            let same = bytes_eq(name.as_bytes(), kb);
            proof {
                assert(self@[i as int].0 == name@);
                if same {
                    assert(decode_utf8(encode_utf8(name@)) == name@);
                    assert(decode_utf8(encode_utf8(key@)) == key@);
                } else {
                    assert(name@ != key@);
                }
            }
            if same {
                return Some(i);
            }
            i += 1;
        }
        None
    }

    /// The value stored under `key`.
    pub fn get(&self, key: &str) -> (r: Option<&String>)
        ensures
            match r {
                Some(v) => lookup(self@, key@) == Some(v@),
                None => lookup(self@, key@) is None,
            },
    {
        proof {
            use_type_invariant(self);
        }
        match self.position(key) {
            Some(i) => {
                proof {
                    lemma_name_index(self@, key@, i as int);
                }
                Some(&self.entries[i].1)
            },
            None => None,
        }
    }

    /// Stores `value` under `key`, replacing the value of a field of that name.
    pub fn insert(&mut self, key: String, value: String)
        ensures
            final(self)@ == insert_field(old(self)@, key@, value@),
    {
        proof {
            use_type_invariant(&*self);
        }
        let ghost old_view = self@;
        let pos = self.position(key.as_str());
        proof {
            lemma_insert_distinct(old_view, key@, value@);
        }
        match pos {
            Some(i) => {
                proof {
                    lemma_name_index(old_view, key@, i as int);
                }
                let mut entries = Vec::new();
                std::mem::swap(&mut entries, &mut self.entries);
                entries.set(i, (key, value));
                proof {
                    assert(entries@.map_values(|e: (String, String)| (e.0@, e.1@)) =~= insert_field(
                        old_view,
                        key@,
                        value@,
                    ));
                }
                self.entries = entries;
            },
            None => {
                let mut entries = Vec::new();
                std::mem::swap(&mut entries, &mut self.entries);
                entries.push((key, value));
                proof {
                    assert(entries@.map_values(|e: (String, String)| (e.0@, e.1@)) =~= insert_field(
                        old_view,
                        key@,
                        value@,
                    ));
                }
                self.entries = entries;
            },
        }
    }
}


/// The field a header line stands for: the name is what comes before the
/// first `:`, the value what comes after it, trimmed of whitespace.
pub open spec fn header_line(line: Seq<u8>) -> Option<(Seq<char>, Seq<char>)> {
    match split_once(line, COLON) {
        Some((n, v)) => Some((decode_utf8(n), trim(decode_utf8(v)))),
        None => None,
    }
}

pub const COLON: u8 = 0x3a;

/// The fields that a run of header lines stores, in order; `None` when some
/// line has no `:`.
pub open spec fn header_fields(lines: Seq<Seq<u8>>) -> Option<Fields>
    decreases lines.len(),
{
    if lines.len() == 0 {
        Some(Seq::empty())
    } else {
        match header_fields(lines.drop_last()) {
            None => None,
            Some(es) => match header_line(lines.last()) {
                None => None,
                Some((n, v)) => Some(insert_field(es, n, v)),
            },
        }
    }
}

/// The header stage shared by requests and responses, from cursor `c`: the
/// block runs up to the first `\r\n\r\n` of the whole message; it must be
/// UTF-8 and every line of it must hold a `:`. The cursor after it is just
/// past that `\r\n\r\n`. `None` when the block would start after its own
/// end, where slicing panics.
pub open spec fn headers_stage(raw: Seq<u8>, c: int) -> Option<Result<(Fields, int), ParseError>> {
    match find_blank_line(raw) {
        None => Some(Err(ParseError::UnexpectedEndOfRequest)),
        Some(p) => if c > p {
            None
        } else {
            let h = raw.subrange(c, p);
            if !valid_utf8(h) {
                Some(Err(ParseError::InvalidUtf8))
            } else {
                match header_fields(split_lines(h)) {
                    None => Some(Err(ParseError::InvalidHeader)),
                    Some(es) => Some(Ok((es, p + 4))),
                }
            }
        },
    }
}

/// Reads the header block `raw[start..p]`, where `p` is where the first
/// `\r\n\r\n` of `raw` starts.
pub(crate) fn parse_header_block(raw: &[u8], start: usize, p: usize) -> (r: Result<HeaderMap, ParseError>)
    requires
        start <= p,
        find_blank_line(raw@) == Some(p as int),
    ensures
        match headers_stage(raw@, start as int) {
            Some(Ok((es, _))) => r matches Ok(m) && m@ == es,
            Some(Err(e)) => r == Err::<HeaderMap, ParseError>(e),
            None => false,
        },
{
    proof {
        lemma_find_blank_line_from(raw@, 0);
    }
    let h = slice_subrange(raw, start, p);
    if utf8_str(h).is_none() {
        return Err(ParseError::InvalidUtf8);
    }
    let ghost hb = h@;
    let n = h.len();
    let mut map = HeaderMap::new();
    let mut pos: usize = 0;
    let ghost mut done: Seq<Seq<u8>> = Seq::empty();
    loop
        invariant
            hb == h@,
            hb == raw@.subrange(start as int, p as int),
            start <= p,
            find_blank_line(raw@) == Some(p as int),
            n == hb.len(),
            valid_utf8(hb),
            pos <= n,
            pos == 0 || hb[pos - 1] == LF,
            split_lines(hb) == done + split_lines_from(hb, pos as int),
            header_fields(done) == Some(map@),
        decreases n - pos,
    {
        let i = scan_crlf_exec(h, pos);
        proof {
            lemma_scan_crlf(hb, pos as int);
            lemma_ascii_bounded_piece(hb, pos as int, i as int);
        }
        let line = slice_subrange(h, pos, i);
        let ghost lb = line@;
        let j = scan_exec(line, 0, 58);
        proof {
            lemma_scan_to(lb, 0, COLON);
        }
        if j >= line.len() {
            proof {
                let all = split_lines(hb);
                assert(split_lines_from(hb, pos as int)[0] == lb);
                assert(all[done.len() as int] == lb);
                lemma_fields_fail(all, done.len() + 1);
            }
            return Err(ParseError::InvalidHeader);
        }
        proof {
            lemma_ascii_bounded_piece(lb, 0, j as int);
            lemma_ascii_bounded_piece(lb, j + 1, lb.len() as int);
        }
        let name = match decode_range(line, 0, j) {
            Some(s) => s,
            None => {
                assert(false);
                String::new()
            },
        };
        let vpart = slice_subrange(line, j + 1, line.len());
        let value = match utf8_str(vpart) {
            Some(v) => trim_str(v).to_owned(),
            None => {
                assert(false);
                String::new()
            },
        };
        let ghost before = map@;
        map.insert(name, value);
        proof {
            let nd = done.push(lb);
            assert(nd.drop_last() =~= done);
            assert(header_line(lb) == Some((name@, value@)));
            assert(header_fields(nd) == Some(map@));
            if i < n {
                assert(split_lines_from(hb, pos as int) =~= seq![lb] + split_lines_from(hb, i + 2));
                assert(split_lines(hb) =~= nd + split_lines_from(hb, i + 2));
            } else {
                assert(split_lines_from(hb, pos as int) =~= seq![lb]);
                assert(split_lines(hb) =~= nd);
            }
            done = nd;
        }
        if i >= n {
            return Ok(map);
        }
        pos = i + 2;
    }
}

/// Once some line has no `:`, every longer run of lines fails too.
proof fn lemma_fields_fail(lines: Seq<Seq<u8>>, k: nat)
    requires
        0 < k <= lines.len(),
        header_line(lines[k - 1]) is None,
    ensures
        header_fields(lines) is None,
    decreases lines.len(),
{
    if lines.len() == k {
        assert(lines.last() == lines[k - 1]);
    } else {
        assert(lines.drop_last()[k - 1] == lines[k - 1]);
        lemma_fields_fail(lines.drop_last(), k);
    }
}


/// One field as a header line: `name: value\r\n`.
pub open spec fn field_line_bytes(f: (Seq<char>, Seq<char>)) -> Seq<u8> {
    encode_utf8(f.0) + seq![COLON, SP] + encode_utf8(f.1) + seq![CR, LF]
}

/// The fields as header lines, in order.
pub open spec fn field_lines(es: Fields) -> Seq<u8>
    decreases es.len(),
{
    if es.len() == 0 {
        Seq::empty()
    } else {
        field_lines(es.drop_last()) + field_line_bytes(es.last())
    }
}

/// Appends the fields of `m` as header lines.
pub(crate) fn push_field_lines(out: &mut Vec<u8>, m: &HeaderMap)
    ensures
        final(out)@ == old(out)@ + field_lines(m@),
{
    let ghost start = out@;
    let n = m.len();
    let mut i: usize = 0;
    while i < n
        invariant
            n == m@.len(),
            i <= n,
            out@ == start + field_lines(m@.take(i as int)),
        decreases n - i,
    {
        let (k, v) = m.entry(i);
        let ghost before = out@;
        push_str(out, k.as_str());
        push_bytes(out, &[58u8, 32u8]);
        push_str(out, v.as_str());
        push_bytes(out, &[13u8, 10u8]);
        proof {
            assert(m@.take(i + 1).drop_last() =~= m@.take(i as int));
            assert(m@.take(i + 1).last() == m@[i as int]);
            assert(out@ =~= start + field_lines(m@.take(i + 1)));
        }
        i += 1;
    }
    assert(m@.take(n as int) =~= m@);
}


/// A field line without its line end: `name: value`.
pub open spec fn line_text(f: (Seq<char>, Seq<char>)) -> Seq<u8> {
    encode_utf8(f.0) + seq![COLON, SP] + encode_utf8(f.1)
}

/// The field lines joined by `\r\n`, without a line end after the last.
pub open spec fn joined_lines(es: Fields) -> Seq<u8>
    decreases es.len(),
{
    if es.len() <= 1 {
        if es.len() == 1 {
            line_text(es[0])
        } else {
            Seq::empty()
        }
    } else {
        joined_lines(es.drop_last()) + seq![CR, LF] + line_text(es.last())
    }
}

/// A field that reads back as itself from its header line: its name holds
/// no `:` and no `\r`, its value no `\r` and no leading or trailing
/// whitespace.
pub open spec fn wire_safe_field(f: (Seq<char>, Seq<char>)) -> bool {
    &&& no_char(f.0, ':')
    &&& no_char(f.0, '\r')
    &&& no_char(f.1, '\r')
    &&& trim(f.1) == f.1
}

/// Fields that read back as themselves from their header lines.
pub open spec fn wire_safe_fields(es: Fields) -> bool {
    &&& names_distinct(es)
    &&& forall|i: int| 0 <= i < es.len() ==> wire_safe_field(#[trigger] es[i])
}

proof fn lemma_line_text(f: (Seq<char>, Seq<char>))
    requires
        wire_safe_field(f),
    ensures
        no_byte(line_text(f), CR),
        valid_utf8(line_text(f)),
        header_line(line_text(f)) == Some(f),
{
    let l = line_text(f);
    let k = encode_utf8(f.0);
    let v = encode_utf8(f.1);
    lemma_encode_no_byte(f.0, '\r');
    lemma_encode_no_byte(f.1, '\r');
    lemma_encode_no_byte(f.0, ':');
    assert forall|i: int| 0 <= i < l.len() implies #[trigger] l[i] != CR by {
        if i < k.len() {
            assert(l[i] == k[i]);
        } else if i < k.len() + 2 {
        } else {
            assert(l[i] == v[i - k.len() - 2]);
        }
    }
    let sep = seq![COLON, SP];
    lemma_ascii_valid(sep);
    assert(l =~= k + sep + v);
    valid_utf8_concat(k, sep);
    valid_utf8_concat(k + sep, v);
    lemma_scan_to_at(l, 0, COLON, k.len() as int);
    assert(l.subrange(0, k.len() as int) =~= k);
    let rest = l.subrange(k.len() as int + 1, l.len() as int);
    assert(rest =~= seq![SP] + v);
    let sp = seq![' '];
    is_ascii_chars_encode_utf8(sp);
    assert(encode_utf8(sp) =~= seq![SP]);
    lemma_encode_concat(sp, f.1);
    assert(decode_utf8(rest) == sp + f.1);
    lemma_trim_leading_space(f.1);
}

/// The lines of `es` are the joined lines followed by `\r\n`.
proof fn lemma_field_lines_joined(es: Fields)
    requires
        es.len() > 0,
    ensures
        field_lines(es) == joined_lines(es) + seq![CR, LF],
    decreases es.len(),
{
    if es.len() == 1 {
        assert(es.drop_last() =~= Seq::<(Seq<char>, Seq<char>)>::empty());
        assert(field_lines(es.drop_last()) =~= Seq::<u8>::empty());
        assert(es.last() == es[0]);
        assert(field_lines(es) =~= joined_lines(es) + seq![CR, LF]);
    } else {
        lemma_field_lines_joined(es.drop_last());
        assert(field_lines(es) =~= joined_lines(es) + seq![CR, LF]);
    }
}

proof fn lemma_wire_safe_prefix(es: Fields)
    requires
        wire_safe_fields(es),
        es.len() > 0,
    ensures
        wire_safe_fields(es.drop_last()),
        wire_safe_field(es.last()),
{
    let d = es.drop_last();
    assert forall|i: int, j: int| 0 <= i < j < d.len() implies (#[trigger] d[i]).0 != (
    #[trigger] d[j]).0 by {
        assert(d[i] == es[i] && d[j] == es[j]);
    }
    assert forall|i: int| 0 <= i < d.len() implies wire_safe_field(#[trigger] d[i]) by {
        assert(d[i] == es[i]);
    }
    assert(wire_safe_field(es[es.len() - 1]));
}

/// Joined lines: no `\r\n\r\` inside, well-formed UTF-8, not starting with
/// `\r`, and split back into the lines of the fields, which read back as the
/// fields.
proof fn lemma_joined_lines(es: Fields)
    requires
        wire_safe_fields(es),
        es.len() > 0,
    ensures
        valid_utf8(joined_lines(es)),
        joined_lines(es).len() > 0,
        joined_lines(es)[0] != CR,
        joined_lines(es).len() >= 2,
        forall|j: int|
            joined_lines(es).len() - 2 <= j < joined_lines(es).len() ==> #[trigger] joined_lines(
                es,
            )[j] != CR,
        forall|j: int|
            0 <= j && j + 2 < joined_lines(es).len() ==> !(#[trigger] joined_lines(es)[j] == CR
                && joined_lines(es)[j + 1] == LF && joined_lines(es)[j + 2] == CR),
        header_fields(split_lines(joined_lines(es))) == Some(es),
    decreases es.len(),
{
    let last = es.last();
    lemma_wire_safe_prefix(es);
    lemma_line_text(last);
    let lt = line_text(last);
    assert(lt.len() >= 2);
    if es.len() == 1 {
        assert(es[0] == last);
        lemma_split_lines_single(lt);
        let lines = seq![lt];
        assert(joined_lines(es) == lt);
        assert(split_lines(joined_lines(es)) == lines);
        assert(lines.drop_last() =~= Seq::<Seq<u8>>::empty());
        assert(header_fields(lines.drop_last()) == Some(Seq::<(Seq<char>, Seq<char>)>::empty()));
        assert(lines.last() == lt);
        assert(header_line(lt) == Some(last));
        let e0 = Seq::<(Seq<char>, Seq<char>)>::empty();
        assert(!has_name(e0, last.0));
        assert(insert_field(e0, last.0, last.1) =~= es);
        assert(header_fields(lines) == Some(es));
    } else {
        let d = es.drop_last();
        lemma_joined_lines(d);
        let jd = joined_lines(d);
        let crlf = seq![CR, LF];
        lemma_ascii_valid(crlf);
        let jl = joined_lines(es);
        assert(jl == jd + crlf + lt);
        valid_utf8_concat(jd, crlf);
        valid_utf8_concat(jd + crlf, lt);
        assert(jl[0] == jd[0]);
        assert forall|j: int| jl.len() - 2 <= j < jl.len() implies #[trigger] jl[j] != CR by {
            assert(jl[j] == lt[j - jd.len() - 2]);
        }
        assert forall|j: int|
            0 <= j && j + 2 < jl.len() implies !(#[trigger] jl[j] == CR && jl[j + 1] == LF && jl[j
            + 2] == CR) by {
            if j + 2 < jd.len() {
                assert(jl[j] == jd[j] && jl[j + 1] == jd[j + 1] && jl[j + 2] == jd[j + 2]);
            } else if j + 2 == jd.len() {
                assert(jl[j] == jd[j]);
                assert(jd[j] != CR);
            } else if j + 1 == jd.len() {
                assert(jl[j + 1] == CR);
            } else if j == jd.len() {
                assert(jl[j + 2] == lt[0]);
            } else if j == jd.len() + 1 {
                assert(jl[j] == LF);
            } else {
                assert(jl[j] == lt[j - jd.len() - 2]);
            }
        }
        lemma_split_lines_append(jd, lt);
        let lines = split_lines(jl);
        assert(lines == split_lines(jd) + seq![lt]);
        assert(lines.drop_last() =~= split_lines(jd));
        assert(lines.last() == lt);
        assert(!has_name(d, last.0)) by {
            if has_name(d, last.0) {
                let i = name_index(d, last.0);
                assert(es[i].0 != es[es.len() - 1].0);
            }
        }
        assert(insert_field(d, last.0, last.1) =~= es);
        assert(header_fields(lines.drop_last()) == Some(d));
        assert(header_line(lines.last()) == Some(last));
        assert(header_fields(lines) == Some(es));
    }
}

/// A message head made of a line `a` ending in its only `\r\n`, the field
/// lines of `es`, and a tail `t` that starts with `\r\n`: the head ends
/// right after the field lines, and the header stage reads back exactly
/// `es` from there.
pub proof fn lemma_head_block(a: Seq<u8>, es: Fields, t: Seq<u8>)
    requires
        wire_safe_fields(es),
        es.len() > 0,
        a.len() >= 2,
        a[a.len() - 2] == CR,
        a[a.len() - 1] == LF,
        forall|j: int| 0 <= j < a.len() - 2 ==> a[j] != CR,
        t.len() >= 2,
        t[0] == CR,
        t[1] == LF,
    ensures
        find_blank_line(a + field_lines(es) + t) == Some(a.len() + field_lines(es).len() - 2),
        headers_stage(a + field_lines(es) + t, a.len() as int) == Some(
            Ok::<(Fields, int), ParseError>((es, (a.len() + field_lines(es).len() + 2) as int)),
        ),
{
    lemma_joined_lines(es);
    lemma_field_lines_joined(es);
    let jl = joined_lines(es);
    let f = field_lines(es);
    let m = a + f + t;
    let p = a.len() + f.len() - 2;
    assert(f == jl + seq![CR, LF]);
    assert(m =~= a + jl + seq![CR, LF] + t);
    assert(m[p] == CR && m[p + 1] == LF && m[p + 2] == CR && m[p + 3] == LF);
    assert forall|j: int| 0 <= j < p implies !blank_line_at(m, j) by {
        if j < a.len() - 2 {
            assert(m[j] == a[j]);
        } else if j == a.len() - 2 {
            assert(m[j + 2] == jl[0]);
        } else if j == a.len() - 1 {
            assert(m[j] == LF);
        } else {
            let k = j - a.len();
            assert(m[j] == jl[k]);
            if k + 2 < jl.len() {
                assert(m[j + 1] == jl[k + 1]);
                assert(m[j + 2] == jl[k + 2]);
            } else if k + 2 == jl.len() {
                assert(jl[k] != CR);
            } else {
                assert(jl[k] != CR);
                assert(m[j + 1] == CR);
            }
        }
    }
    lemma_find_blank_line_at(m, 0, p);
    assert(m.subrange(a.len() as int, p) =~= jl);
}

} // verus!

//! The record codec for the local address book file: a line-oriented,
//! tab-delimited format with line continuation. A logical record is
//! accumulated from physical lines (a line ending in a tab while the
//! record holds fewer than four tabs continues it, and a line opening
//! with three spaces folds into it), then split on tabs into at most
//! five fields, each passed through the MIME decode step.

use vstd::prelude::*;
use vstd::string::*;
use crate::contact::{LocalContact, LocalContactView};
use crate::mime::{decode_chars, decode_field, decode_if_encoded, FormatError};
use crate::text::str_chars;

verus! {

/// How many tab characters `s` holds.
pub open spec fn count_tabs(s: Seq<char>) -> nat
    decreases s.len(),
{
    if s.len() == 0 {
        0
    } else {
        count_tabs(s.drop_last()) + (if s.last() == '\t' {
            1nat
        } else {
            0nat
        })
    }
}

/// `ss` with `p` prepended to its first element; for a line split, the
/// empty-input case collapses to no lines at all.
pub open spec fn cons_line(p: Seq<char>, ss: Seq<Seq<char>>) -> Seq<Seq<char>> {
    if ss.len() == 0 {
        if p.len() == 0 {
            seq![]
        } else {
            seq![p]
        }
    } else {
        seq![p + ss[0]].add(ss.drop_first())
    }
}

/// `ss` with `p` prepended to its first element (for a field split,
/// which always has a first element).
pub open spec fn cons_field(p: Seq<char>, ss: Seq<Seq<char>>) -> Seq<Seq<char>> {
    seq![p + ss[0]].add(ss.drop_first())
}

/// The physical lines of `s`: maximal runs between newline characters,
/// with no line for a trailing newline.
pub open spec fn raw_lines(s: Seq<char>) -> Seq<Seq<char>>
    decreases s.len(),
{
    if s.len() == 0 {
        seq![]
    } else if s[0] == '\n' {
        seq![Seq::<char>::empty()].add(raw_lines(s.drop_first()))
    } else {
        cons_line(seq![s[0]], raw_lines(s.drop_first()))
    }
}

/// A line with one trailing carriage return removed, so that a file
/// with CRLF line endings reads the same as one with LF endings.
pub open spec fn strip_cr(l: Seq<char>) -> Seq<char> {
    if l.len() > 0 && l.last() == '\r' {
        l.drop_last()
    } else {
        l
    }
}

/// The lines the parser works on.
pub open spec fn lines_of(s: Seq<char>) -> Seq<Seq<char>> {
    raw_lines(s).map_values(|l: Seq<char>| strip_cr(l))
}

/// The fields of a record: the runs between tab characters, at least
/// one (an empty record splits into one empty field).
pub open spec fn split_tabs(s: Seq<char>) -> Seq<Seq<char>>
    decreases s.len(),
{
    if s.len() == 0 {
        seq![Seq::<char>::empty()]
    } else if s[0] == '\t' {
        seq![Seq::<char>::empty()].add(split_tabs(s.drop_first()))
    } else {
        cons_field(seq![s[0]], split_tabs(s.drop_first()))
    }
}

pub open spec fn field_or_empty(fields: Seq<Seq<char>>, i: int) -> Seq<char> {
    if 0 <= i < fields.len() {
        fields[i]
    } else {
        Seq::empty()
    }
}

/// The record the five fields decode to (missing trailing fields are
/// empty), or the first decode error in field order.
pub open spec fn decoded_record(fields: Seq<Seq<char>>) -> Result<LocalContactView, FormatError> {
    match decode_field(field_or_empty(fields, 0)) {
        Err(e) => Err(e),
        Ok(nickname) => match decode_field(field_or_empty(fields, 1)) {
            Err(e) => Err(e),
            Ok(display_name) => match decode_field(field_or_empty(fields, 2)) {
                Err(e) => Err(e),
                Ok(email) => match decode_field(field_or_empty(fields, 3)) {
                    Err(e) => Err(e),
                    Ok(fcc) => match decode_field(field_or_empty(fields, 4)) {
                        Err(e) => Err(e),
                        Ok(note) => Ok(
                            LocalContactView { nickname, display_name, email, fcc, note },
                        ),
                    },
                },
            },
        },
    }
}

/// What finalizing a record buffer yields: its fields decoded, or an
/// error when it splits into more than five fields or a field is
/// malformed.
pub open spec fn finalize_line(buf: Seq<char>) -> Result<LocalContactView, FormatError> {
    let fields = split_tabs(buf);
    if fields.len() > 5 {
        Err(FormatError::TooManyFields)
    } else {
        decoded_record(fields)
    }
}

/// A physical line continues the record in progress when it ends with a
/// tab while the accumulated record holds fewer than four tabs.
pub open spec fn is_continuation(line: Seq<char>, buf: Seq<char>) -> bool {
    line.len() > 0 && line.last() == '\t' && count_tabs(buf) < 4
}

/// A line opening with three spaces folds into the record in progress
/// without forcing it to be finalized first.
pub open spec fn is_soft_wrap(line: Seq<char>) -> bool {
    line.len() >= 3 && line[0] == ' ' && line[1] == ' ' && line[2] == ' '
}

/// Finalizes a non-empty buffer into a record; an empty buffer yields
/// nothing.
pub open spec fn flush_buffer(recs: Seq<LocalContactView>, buf: Seq<char>) -> Result<
    (Seq<LocalContactView>, Seq<char>),
    FormatError,
> {
    if buf.len() == 0 {
        Ok((recs, buf))
    } else {
        match finalize_line(buf) {
            Ok(r) => Ok((recs.push(r), Seq::empty())),
            Err(e) => Err(e),
        }
    }
}

/// One step of the parser on a physical line.
pub open spec fn parse_step(
    recs: Seq<LocalContactView>,
    buf: Seq<char>,
    line: Seq<char>,
) -> Result<(Seq<LocalContactView>, Seq<char>), FormatError> {
    if is_continuation(line, buf) {
        Ok((recs, buf + line))
    } else if is_soft_wrap(line) || buf.len() == 0 {
        flush_buffer(recs, buf + line)
    } else {
        match finalize_line(buf) {
            Err(e) => Err(e),
            Ok(r) => flush_buffer(recs.push(r), line),
        }
    }
}

pub open spec fn parse_lines(
    recs: Seq<LocalContactView>,
    buf: Seq<char>,
    lines: Seq<Seq<char>>,
) -> Result<(Seq<LocalContactView>, Seq<char>), FormatError>
    decreases lines.len(),
{
    if lines.len() == 0 {
        Ok((recs, buf))
    } else {
        match parse_step(recs, buf, lines[0]) {
            Err(e) => Err(e),
            Ok(st) => parse_lines(st.0, st.1, lines.drop_first()),
        }
    }
}

/// The record left unflushed at end of input, if any, becomes a final
/// record.
pub open spec fn eof_flush(recs: Seq<LocalContactView>, buf: Seq<char>) -> Result<
    Seq<LocalContactView>,
    FormatError,
> {
    if buf.len() == 0 {
        Ok(recs)
    } else {
        match finalize_line(buf) {
            Ok(r) => Ok(recs.push(r)),
            Err(e) => Err(e),
        }
    }
}

/// What parsing a whole file yields.
pub open spec fn parse_spec(input: Seq<char>) -> Result<Seq<LocalContactView>, FormatError> {
    match parse_lines(Seq::empty(), Seq::empty(), lines_of(input)) {
        Err(e) => Err(e),
        Ok(st) => eof_flush(st.0, st.1),
    }
}

/// The serialized form of one record: its five fields joined by tabs.
pub open spec fn content_line(c: LocalContactView) -> Seq<char> {
    c.nickname + seq!['\t'] + c.display_name + seq!['\t'] + c.email + seq!['\t'] + c.fcc + seq![
        '\t',
    ] + c.note
}

/// The serialized file: one line per record, each newline-terminated;
/// a record whose email is empty is skipped entirely.
pub open spec fn serialize_spec(cs: Seq<LocalContactView>) -> Seq<char>
    decreases cs.len(),
{
    if cs.len() == 0 {
        Seq::empty()
    } else {
        (if cs[0].email.len() == 0 {
            Seq::<char>::empty()
        } else {
            content_line(cs[0]).push('\n')
        }) + serialize_spec(cs.drop_first())
    }
}

fn count_tabs_vec(v: &Vec<char>) -> (r: usize)
    ensures
        r as nat == count_tabs(v@),
{
    let mut r: usize = 0;
    let mut i: usize = 0;
    while i < v.len()
        invariant
            i <= v@.len(),
            r <= i,
            r as nat == count_tabs(v@.take(i as int)),
        decreases v@.len() - i,
    {
        proof {
            assert(v@.take(i + 1).drop_last() =~= v@.take(i as int));
            assert(v@.take(i + 1).last() == v@[i as int]);
        }
        if v[i] == '\t' {
            r = r + 1;
        }
        i = i + 1;
    }
    proof {
        assert(v@.take(v@.len() as int) =~= v@);
    }
    r
}

proof fn lemma_split_tabs_nonempty(s: Seq<char>)
    ensures
        split_tabs(s).len() >= 1,
    decreases s.len(),
{
    if s.len() > 0 {
        lemma_split_tabs_nonempty(s.drop_first());
    }
}

fn split_tabs_vec(v: &Vec<char>) -> (r: Vec<Vec<char>>)
    ensures
        r.deep_view() == split_tabs(v@),
{
    let mut done: Vec<Vec<char>> = Vec::new();
    let mut cur: Vec<char> = Vec::new();
    let mut i: usize = 0;
    proof {
        assert(v@.skip(0) =~= v@);
        lemma_split_tabs_nonempty(v@);
        assert(done.deep_view() + cons_field(cur@, split_tabs(v@)) =~~= split_tabs(v@));
    }
    while i < v.len()
        invariant
            i <= v@.len(),
            split_tabs(v@) == done.deep_view() + cons_field(cur@, split_tabs(v@.skip(i as int))),
        decreases v@.len() - i,
    {
        let ghost pre = v@.skip(i as int);
        let ghost rest = v@.skip(i + 1);
        proof {
            assert(pre.len() > 0);
            assert(pre[0] == v@[i as int]);
            assert(pre.drop_first() =~= rest);
            lemma_split_tabs_nonempty(rest);
        }
        let c = v[i];
        if c == '\t' {
            let ghost finished_view = cur@;
            let ghost done_deep = done.deep_view();
            proof {
                assert(split_tabs(pre) =~~= seq![Seq::<char>::empty()] + split_tabs(rest));
                assert(cons_field(cur@, split_tabs(pre)) =~~= seq![cur@] + split_tabs(rest));
                assert(cons_field(Seq::<char>::empty(), split_tabs(rest)) =~~= split_tabs(rest));
            }
            let finished = cur;
            cur = Vec::new();
            done.push(finished);
            proof {
                assert(done.deep_view() =~~= done_deep.push(finished_view));
                assert(done.deep_view() + cons_field(cur@, split_tabs(rest)) =~~= split_tabs(v@));
            }
        } else {
            proof {
                assert(split_tabs(pre) =~~= cons_field(seq![v@[i as int]], split_tabs(rest)));
                assert(cons_field(cur@, cons_field(seq![v@[i as int]], split_tabs(rest)))
                    =~~= cons_field(cur@.push(v@[i as int]), split_tabs(rest)));
            }
            cur.push(c);
        }
        i = i + 1;
    }
    let ghost done_deep = done.deep_view();
    let ghost cur_view = cur@;
    proof {
        assert(v@.skip(v@.len() as int) =~= Seq::<char>::empty());
        assert(cons_field(cur@, split_tabs(Seq::<char>::empty())) =~~= seq![cur@]);
    }
    done.push(cur);
    proof {
        assert(done.deep_view() =~~= done_deep.push(cur_view));
        assert(done.deep_view() =~~= split_tabs(v@));
    }
    done
}

fn strip_cr_vec(line: Vec<char>) -> (r: Vec<char>)
    ensures
        r@ == strip_cr(line@),
{
    let mut l = line;
    if l.len() > 0 && l[l.len() - 1] == '\r' {
        l.pop();
    }
    l
}

/// The lines of the input, split on newlines, each with a trailing
/// carriage return removed.
fn split_into_lines(v: &Vec<char>) -> (r: Vec<Vec<char>>)
    ensures
        r.deep_view() == lines_of(v@),
{
    let mut done: Vec<Vec<char>> = Vec::new();
    let ghost mut raw_done: Seq<Seq<char>> = Seq::empty();
    let mut cur: Vec<char> = Vec::new();
    let mut i: usize = 0;
    proof {
        assert(v@.skip(0) =~= v@);
        if raw_lines(v@).len() == 0 {
            assert(cons_line(Seq::<char>::empty(), raw_lines(v@)) =~~= raw_lines(v@));
        } else {
            assert(cons_line(Seq::<char>::empty(), raw_lines(v@)) =~~= raw_lines(v@));
        }
        assert(raw_done + cons_line(cur@, raw_lines(v@)) =~~= raw_lines(v@));
        assert(done.deep_view() =~~= raw_done.map_values(|l: Seq<char>| strip_cr(l)));
    }
    while i < v.len()
        invariant
            i <= v@.len(),
            raw_lines(v@) == raw_done + cons_line(cur@, raw_lines(v@.skip(i as int))),
            done.deep_view() == raw_done.map_values(|l: Seq<char>| strip_cr(l)),
        decreases v@.len() - i,
    {
        let ghost pre = v@.skip(i as int);
        let ghost rest = v@.skip(i + 1);
        proof {
            assert(pre.len() > 0);
            assert(pre[0] == v@[i as int]);
            assert(pre.drop_first() =~= rest);
        }
        let c = v[i];
        if c == '\n' {
            let ghost finished_view = cur@;
            let ghost done_deep = done.deep_view();
            proof {
                assert(raw_lines(pre) =~~= seq![Seq::<char>::empty()] + raw_lines(rest));
                assert(cons_line(cur@, raw_lines(pre)) =~~= seq![cur@] + raw_lines(rest));
                assert(cons_line(Seq::<char>::empty(), raw_lines(rest)) =~~= raw_lines(rest));
                assert(raw_done.push(finished_view).map_values(|l: Seq<char>| strip_cr(l))
                    =~~= raw_done.map_values(|l: Seq<char>| strip_cr(l)).push(
                    strip_cr(finished_view),
                ));
            }
            let finished = cur;
            cur = Vec::new();
            done.push(strip_cr_vec(finished));
            proof {
                raw_done = raw_done.push(finished_view);
                assert(done.deep_view() =~~= done_deep.push(strip_cr(finished_view)));
                assert(raw_lines(v@) =~~= raw_done + cons_line(cur@, raw_lines(rest)));
            }
        } else {
            proof {
                assert(raw_lines(pre) =~~= cons_line(seq![v@[i as int]], raw_lines(rest)));
                if raw_lines(rest).len() == 0 {
                    assert(cons_line(cur@, raw_lines(pre)) =~~= seq![cur@.push(v@[i as int])]);
                    assert(cons_line(cur@.push(v@[i as int]), raw_lines(rest)) =~~= seq![cur@.push(
                        v@[i as int],
                    )]);
                } else {
                    assert(cons_line(cur@, cons_line(seq![v@[i as int]], raw_lines(rest)))
                        =~~= cons_line(cur@.push(v@[i as int]), raw_lines(rest)));
                }
            }
            cur.push(c);
        }
        i = i + 1;
    }
    proof {
        assert(v@.skip(v@.len() as int) =~= Seq::<char>::empty());
    }
    if cur.len() > 0 {
        let ghost finished_view = cur@;
        let ghost done_deep = done.deep_view();
        proof {
            assert(cons_line(cur@, raw_lines(Seq::<char>::empty())) =~~= seq![cur@]);
            assert(raw_done.push(finished_view).map_values(|l: Seq<char>| strip_cr(l))
                =~~= raw_done.map_values(|l: Seq<char>| strip_cr(l)).push(strip_cr(finished_view)));
        }
        let finished = cur;
        done.push(strip_cr_vec(finished));
        proof {
            raw_done = raw_done.push(finished_view);
            assert(done.deep_view() =~~= done_deep.push(strip_cr(finished_view)));
        }
    } else {
        proof {
            assert(cons_line(cur@, raw_lines(Seq::<char>::empty())) =~~= Seq::<Seq<char>>::empty());
        }
    }
    proof {
        assert(raw_done =~~= raw_lines(v@));
        assert(done.deep_view() =~~= lines_of(v@));
    }
    done
}

fn append_chars(dst: &mut Vec<char>, src: &Vec<char>)
    ensures
        final(dst)@ == old(dst)@ + src@,
{
    let mut i: usize = 0;
    while i < src.len()
        invariant
            i <= src@.len(),
            dst@ == old(dst)@ + src@.take(i as int),
        decreases src@.len() - i,
    {
        dst.push(src[i]);
        i = i + 1;
        proof {
            assert(old(dst)@ + src@.take(i as int) =~= (old(dst)@ + src@.take(i - 1)).push(
                src@[i - 1],
            ));
        }
    }
    proof {
        assert(old(dst)@ + src@.take(src@.len() as int) =~= old(dst)@ + src@);
    }
}

/// Finalizes a record buffer: splits it on tabs, decodes the fields and
/// appends the record, or reports why the buffer is malformed.
fn push_record(records: &mut Vec<LocalContact>, buf: &Vec<char>) -> (r: Result<(), FormatError>)
    ensures
        finalize_line(buf@) matches Ok(rv) ==> r is Ok && final(records).deep_view() == old(records).deep_view().push(rv),
        finalize_line(buf@) matches Err(e) ==> r matches Err(e2) && e2 == e && final(records).deep_view() == old(records).deep_view(),
{
    let fields = split_tabs_vec(buf);
    let ghost sfields = split_tabs(buf@);
    if fields.len() > 5 {
        return Err(FormatError::TooManyFields);
    }
    let empty_field: Vec<char> = Vec::new();
    proof {
        assert(forall|i: int|
            0 <= i < fields@.len() ==> fields@[i]@ == field_or_empty(sfields, i));
        assert(empty_field@ =~= Seq::<char>::empty());
    }
    let f0 = if fields.len() > 0 {
        &fields[0]
    } else {
        &empty_field
    };
    let nickname = match decode_chars(f0) {
        Ok(s) => s,
        Err(e) => {
            return Err(e);
        },
    };
    let f1 = if fields.len() > 1 {
        &fields[1]
    } else {
        &empty_field
    };
    let display_name = match decode_chars(f1) {
        Ok(s) => s,
        Err(e) => {
            return Err(e);
        },
    };
    let f2 = if fields.len() > 2 {
        &fields[2]
    } else {
        &empty_field
    };
    let email = match decode_chars(f2) {
        Ok(s) => s,
        Err(e) => {
            return Err(e);
        },
    };
    let f3 = if fields.len() > 3 {
        &fields[3]
    } else {
        &empty_field
    };
    let fcc = match decode_chars(f3) {
        Ok(s) => s,
        Err(e) => {
            return Err(e);
        },
    };
    let f4 = if fields.len() > 4 {
        &fields[4]
    } else {
        &empty_field
    };
    let note = match decode_chars(f4) {
        Ok(s) => s,
        Err(e) => {
            return Err(e);
        },
    };
    let ghost records_deep = records.deep_view();
    let contact = LocalContact { nickname, display_name, email, fcc, note };
    let ghost rv = finalize_line(buf@)->Ok_0;
    proof {
        assert(contact@ =~~= rv);
    }
    records.push(contact);
    proof {
        assert(records.deep_view() =~~= records_deep.push(rv));
    }
    Ok(())
}

/// Decodes up to five raw fields and appends the record they form; a
/// record split into fewer than five fields gets empty strings for the
/// missing trailing ones.
pub fn get_decoded_apersons(persons: &mut Vec<LocalContact>, fields: Vec<&str>) -> (r: Result<
    (),
    FormatError,
>)
    ensures
        decoded_record(fields.deep_view()) matches Ok(rv) ==> r is Ok && final(persons).deep_view() == old(persons).deep_view().push(rv),
        decoded_record(fields.deep_view()) matches Err(e) ==> r matches Err(e2) && e2 == e && final(persons).deep_view() == old(persons).deep_view(),
{
    let ghost sfields = fields.deep_view();
    proof {
        reveal_strlit("");
        assert(forall|i: int|
            0 <= i < fields@.len() ==> fields@[i]@ == field_or_empty(sfields, i));
        assert(""@ =~= Seq::<char>::empty());
    }
    let f0: &str = if fields.len() > 0 {
        fields[0]
    } else {
        ""
    };
    let nickname = match decode_if_encoded(f0) {
        Ok(s) => s,
        Err(e) => {
            return Err(e);
        },
    };
    let f1: &str = if fields.len() > 1 {
        fields[1]
    } else {
        ""
    };
    let display_name = match decode_if_encoded(f1) {
        Ok(s) => s,
        Err(e) => {
            return Err(e);
        },
    };
    let f2: &str = if fields.len() > 2 {
        fields[2]
    } else {
        ""
    };
    let email = match decode_if_encoded(f2) {
        Ok(s) => s,
        Err(e) => {
            return Err(e);
        },
    };
    let f3: &str = if fields.len() > 3 {
        fields[3]
    } else {
        ""
    };
    let fcc = match decode_if_encoded(f3) {
        Ok(s) => s,
        Err(e) => {
            return Err(e);
        },
    };
    let f4: &str = if fields.len() > 4 {
        fields[4]
    } else {
        ""
    };
    let note = match decode_if_encoded(f4) {
        Ok(s) => s,
        Err(e) => {
            return Err(e);
        },
    };
    let ghost persons_deep = persons.deep_view();
    let contact = LocalContact { nickname, display_name, email, fcc, note };
    let ghost rv = decoded_record(sfields)->Ok_0;
    proof {
        assert(contact@ =~~= rv);
    }
    persons.push(contact);
    proof {
        assert(persons.deep_view() =~~= persons_deep.push(rv));
    }
    Ok(())
}

/// Finalizes an accumulated logical record: splits it, decodes it and
/// appends it, clearing the buffer on success; on a malformed record
/// the buffer and the records are left as they were.
pub fn convert_line_to_aperson(persons: &mut Vec<LocalContact>, combined_line: &mut String) -> (r:
    Result<(), FormatError>)
    ensures
        finalize_line(old(combined_line)@) matches Ok(rv) ==> r is Ok && final(persons).deep_view() == old(persons).deep_view().push(rv) && final(combined_line)@
            == Seq::<char>::empty(),
        finalize_line(old(combined_line)@) matches Err(e) ==> r matches Err(e2) && e2 == e && final(persons).deep_view() == old(persons).deep_view() && final(combined_line)@ == old(combined_line)@,
{
    let chars = str_chars(combined_line.as_str());
    match push_record(persons, &chars) {
        Ok(()) => {
            *combined_line = String::new();
            Ok(())
        },
        Err(e) => Err(e),
    }
}

/// Parses the whole contents of an address book file into its records.
pub fn parse_addressbook(contents: &str) -> (r: Result<Vec<LocalContact>, FormatError>)
    ensures
        parse_spec(contents@) matches Ok(recs) ==> r matches Ok(v) && v.deep_view() == recs,
        parse_spec(contents@) matches Err(e) ==> r matches Err(e2) && e2 == e,
{
    let v = str_chars(contents);
    let lines = split_into_lines(&v);
    let ghost all_lines = lines_of(contents@);
    let mut records: Vec<LocalContact> = Vec::new();
    let mut buffer: Vec<char> = Vec::new();
    let mut i: usize = 0;
    proof {
        assert(all_lines.skip(0) =~= all_lines);
        assert(records.deep_view() =~~= Seq::<LocalContactView>::empty());
        assert(buffer@ =~= Seq::<char>::empty());
    }
    while i < lines.len()
        invariant
            i <= lines@.len(),
            lines.deep_view() == all_lines,
            all_lines == lines_of(contents@),
            parse_lines(Seq::empty(), Seq::empty(), all_lines) == parse_lines(
                records.deep_view(),
                buffer@,
                all_lines.skip(i as int),
            ),
        decreases lines@.len() - i,
    {
        let ghost recs_d = records.deep_view();
        let ghost buf_d = buffer@;
        let ghost line_d = lines.deep_view()[i as int];
        let line = &lines[i];
        proof {
            assert(line@ == line_d);
            assert(all_lines.skip(i as int)[0] == line_d);
            assert(all_lines.skip(i as int).drop_first() =~= all_lines.skip(i + 1));
        }
        let ends_tab = line.len() > 0 && line[line.len() - 1] == '\t';
        let tabs = count_tabs_vec(&buffer);
        proof {
            assert(ends_tab == (line_d.len() > 0 && line_d.last() == '\t'));
        }
        if ends_tab && tabs < 4 {
            append_chars(&mut buffer, line);
            proof {
                assert(parse_step(recs_d, buf_d, line_d) == Ok::<_, FormatError>(
                    (recs_d, buf_d + line_d),
                ));
            }
        } else {
            let soft = line.len() >= 3 && line[0] == ' ' && line[1] == ' ' && line[2] == ' ';
            proof {
                assert(soft == is_soft_wrap(line_d));
            }
            if !soft && buffer.len() > 0 {
                match push_record(&mut records, &buffer) {
                    Ok(()) => {
                        buffer = Vec::new();
                    },
                    Err(e) => {
                        proof {
                            assert(parse_step(recs_d, buf_d, line_d) == Err::<(
                                Seq<LocalContactView>,
                                Seq<char>,
                            ), _>(e));
                            assert(parse_lines(recs_d, buf_d, all_lines.skip(i as int))
                                == Err::<(Seq<LocalContactView>, Seq<char>), _>(e));
                        }
                        return Err(e);
                    },
                }
            }
            append_chars(&mut buffer, line);
            if buffer.len() > 0 {
                let flushed = push_record(&mut records, &buffer);
                match flushed {
                    Ok(()) => {
                        buffer = Vec::new();
                    },
                    Err(e) => {
                        proof {
                            assert(parse_step(recs_d, buf_d, line_d) == Err::<(
                                Seq<LocalContactView>,
                                Seq<char>,
                            ), _>(e));
                            assert(parse_lines(recs_d, buf_d, all_lines.skip(i as int))
                                == Err::<(Seq<LocalContactView>, Seq<char>), _>(e));
                        }
                        return Err(e);
                    },
                }
            }
        }
        i = i + 1;
        proof {
            assert(parse_step(recs_d, buf_d, line_d) == Ok::<_, FormatError>(
                (records.deep_view(), buffer@),
            ));
            assert(parse_lines(recs_d, buf_d, all_lines.skip(i - 1)) == parse_lines(
                records.deep_view(),
                buffer@,
                all_lines.skip(i as int),
            ));
        }
    }
    proof {
        assert(all_lines.skip(all_lines.len() as int) =~= Seq::<Seq<char>>::empty());
    }
    if buffer.len() > 0 {
        let ghost recs_d = records.deep_view();
        match push_record(&mut records, &buffer) {
            Ok(()) => {},
            Err(e) => {
                proof {
                    assert(eof_flush(recs_d, buffer@) == Err::<Seq<LocalContactView>, _>(e));
                }
                return Err(e);
            },
        }
    }
    Ok(records)
}

/// Serializes the records back to file contents: one newline-terminated
/// line per record, fields joined by tabs, written verbatim; a record
/// whose email is empty is skipped.
pub fn serialize_addressbook(contacts: &Vec<LocalContact>) -> (r: String)
    ensures
        r@ == serialize_spec(contacts.deep_view()),
{
    let ghost cs = contacts.deep_view();
    let mut out = String::new();
    let mut i: usize = 0;
    proof {
        assert(cs.skip(0) =~= cs);
        assert(out@ + serialize_spec(cs) =~= serialize_spec(cs));
    }
    while i < contacts.len()
        invariant
            i <= contacts@.len(),
            cs == contacts.deep_view(),
            out@ + serialize_spec(cs.skip(i as int)) == serialize_spec(cs),
        decreases contacts@.len() - i,
    {
        let ghost out0 = out@;
        let c = &contacts[i];
        proof {
            assert(cs.skip(i as int)[0] == c@);
            assert(cs.skip(i as int).drop_first() =~= cs.skip(i + 1));
        }
        if !c.email.as_str().is_empty() {
            out.append(c.nickname.as_str());
            out.push('\t');
            out.append(c.display_name.as_str());
            out.push('\t');
            out.append(c.email.as_str());
            out.push('\t');
            out.append(c.fcc.as_str());
            out.push('\t');
            out.append(c.note.as_str());
            out.push('\n');
            proof {
                assert(out@ =~= out0 + content_line(c@).push('\n'));
            }
        }
        i = i + 1;
        proof {
            assert(out@ + serialize_spec(cs.skip(i as int)) =~= serialize_spec(cs));
        }
    }
    proof {
        assert(cs.skip(cs.len() as int) =~= Seq::<LocalContactView>::empty());
        assert(out@ =~= serialize_spec(cs));
    }
    out
}

/// A field that survives the decode step unchanged: free of tabs and
/// newlines, no leading whitespace, and not in an encoded form.
pub open spec fn plain_field(f: Seq<char>) -> bool {
    &&& forall|i: int| 0 <= i < f.len() ==> f[i] != '\t' && f[i] != '\n'
    &&& f.len() > 0 ==> !crate::text::spec_is_space(f[0])
    &&& !crate::mime::has_encoding_form(f, crate::mime::b64_prefix())
    &&& !crate::mime::has_encoding_form(f, crate::mime::qp_prefix())
}

/// A record that serialization and parsing carry through unchanged: all
/// five fields plain, a non-empty email, and a note that does not end
/// in a carriage return.
pub open spec fn round_trippable(c: LocalContactView) -> bool {
    &&& plain_field(c.nickname)
    &&& plain_field(c.display_name)
    &&& plain_field(c.email)
    &&& plain_field(c.fcc)
    &&& plain_field(c.note)
    &&& c.email.len() > 0
    &&& c.note.len() > 0 ==> c.note.last() != '\r'
}

proof fn lemma_plain_decode(f: Seq<char>)
    requires
        plain_field(f),
    ensures
        decode_field(f) == Ok::<Seq<char>, FormatError>(f),
{
    assert(crate::text::trim_start_spec(f) == f);
}

proof fn lemma_count_tabs_concat(a: Seq<char>, b: Seq<char>)
    ensures
        count_tabs(a + b) == count_tabs(a) + count_tabs(b),
    decreases b.len(),
{
    if b.len() == 0 {
        assert(a + b =~= a);
    } else {
        lemma_count_tabs_concat(a, b.drop_last());
        assert((a + b).drop_last() =~= a + b.drop_last());
        assert((a + b).last() == b.last());
    }
}

proof fn lemma_count_tabs_free(a: Seq<char>)
    requires
        forall|i: int| 0 <= i < a.len() ==> a[i] != '\t',
    ensures
        count_tabs(a) == 0,
    decreases a.len(),
{
    if a.len() > 0 {
        lemma_count_tabs_free(a.drop_last());
    }
}

proof fn lemma_split_tabs_free(a: Seq<char>)
    requires
        forall|i: int| 0 <= i < a.len() ==> a[i] != '\t',
    ensures
        split_tabs(a) == seq![a],
    decreases a.len(),
{
    if a.len() == 0 {
        assert(split_tabs(a) =~~= seq![a]);
    } else {
        lemma_split_tabs_free(a.drop_first());
        assert(split_tabs(a) == cons_field(seq![a[0]], split_tabs(a.drop_first())));
        assert(split_tabs(a) =~~= seq![a]);
    }
}

proof fn lemma_split_tabs_concat(a: Seq<char>, rest: Seq<char>)
    requires
        forall|i: int| 0 <= i < a.len() ==> a[i] != '\t',
    ensures
        split_tabs(a + seq!['\t'] + rest) == seq![a] + split_tabs(rest),
    decreases a.len(),
{
    let s = a + seq!['\t'] + rest;
    if a.len() == 0 {
        assert(s[0] == '\t');
        assert(s.drop_first() =~= rest);
        assert(split_tabs(s) =~~= seq![a] + split_tabs(rest));
    } else {
        assert(s[0] == a[0]);
        assert(s.drop_first() =~= a.drop_first() + seq!['\t'] + rest);
        lemma_split_tabs_concat(a.drop_first(), rest);
        lemma_split_tabs_nonempty(rest);
        assert(split_tabs(s) == cons_field(seq![a[0]], seq![a.drop_first()] + split_tabs(rest)));
        assert(split_tabs(s) =~~= seq![a] + split_tabs(rest));
    }
}

proof fn lemma_content_line_fields(c: LocalContactView)
    requires
        round_trippable(c),
    ensures
        split_tabs(content_line(c)) == seq![c.nickname, c.display_name, c.email, c.fcc, c.note],
{
    let r3 = c.fcc + seq!['\t'] + c.note;
    let r2 = c.email + seq!['\t'] + r3;
    let r1 = c.display_name + seq!['\t'] + r2;
    assert(content_line(c) =~= c.nickname + seq!['\t'] + r1);
    lemma_split_tabs_concat(c.nickname, r1);
    assert(r1 =~= c.display_name + seq!['\t'] + r2);
    lemma_split_tabs_concat(c.display_name, r2);
    assert(r2 =~= c.email + seq!['\t'] + r3);
    lemma_split_tabs_concat(c.email, r3);
    lemma_split_tabs_concat(c.fcc, c.note);
    lemma_split_tabs_free(c.note);
    assert(split_tabs(content_line(c)) =~~= seq![
        c.nickname,
        c.display_name,
        c.email,
        c.fcc,
        c.note,
    ]);
}

proof fn lemma_finalize_content(c: LocalContactView)
    requires
        round_trippable(c),
    ensures
        finalize_line(content_line(c)) == Ok::<LocalContactView, FormatError>(c),
{
    lemma_content_line_fields(c);
    let fields = split_tabs(content_line(c));
    lemma_plain_decode(c.nickname);
    lemma_plain_decode(c.display_name);
    lemma_plain_decode(c.email);
    lemma_plain_decode(c.fcc);
    lemma_plain_decode(c.note);
    assert(field_or_empty(fields, 0) == c.nickname);
    assert(field_or_empty(fields, 1) == c.display_name);
    assert(field_or_empty(fields, 2) == c.email);
    assert(field_or_empty(fields, 3) == c.fcc);
    assert(field_or_empty(fields, 4) == c.note);
    assert(decoded_record(fields) matches Ok(rv) && rv =~~= c);
}

proof fn lemma_content_line_props(c: LocalContactView)
    requires
        round_trippable(c),
    ensures
        content_line(c).len() >= 4,
        count_tabs(content_line(c)) == 4,
        forall|i: int| 0 <= i < content_line(c).len() ==> content_line(c)[i] != '\n',
        c.note.len() == 0 ==> content_line(c).last() == '\t',
        c.note.len() > 0 ==> content_line(c).last() == c.note.last(),
        content_line(c)[0] != ' ',
        strip_cr(content_line(c)) == content_line(c),
{
    let l = content_line(c);
    let prefix = c.nickname + seq!['\t'] + c.display_name + seq!['\t'] + c.email + seq!['\t']
        + c.fcc + seq!['\t'];
    assert(l =~= prefix + c.note);
    lemma_count_tabs_concat(prefix, c.note);
    lemma_count_tabs_free(c.note);
    let p1 = c.nickname + seq!['\t'];
    let p2 = p1 + c.display_name + seq!['\t'];
    let p3 = p2 + c.email + seq!['\t'];
    assert(prefix =~= p3 + c.fcc + seq!['\t']);
    lemma_count_tabs_concat(p3 + c.fcc, seq!['\t']);
    assert(count_tabs(seq!['\t']) == 1) by {
        assert(seq!['\t'].drop_last() =~= Seq::<char>::empty());
        assert(seq!['\t'].last() == '\t');
        assert(count_tabs(Seq::<char>::empty()) == 0);
    }
    lemma_count_tabs_concat(p3, c.fcc);
    lemma_count_tabs_free(c.fcc);
    assert(p3 =~= (p2 + c.email) + seq!['\t']);
    lemma_count_tabs_concat(p2 + c.email, seq!['\t']);
    lemma_count_tabs_concat(p2, c.email);
    lemma_count_tabs_free(c.email);
    assert(p2 =~= (p1 + c.display_name) + seq!['\t']);
    lemma_count_tabs_concat(p1 + c.display_name, seq!['\t']);
    lemma_count_tabs_concat(p1, c.display_name);
    lemma_count_tabs_free(c.display_name);
    assert(p1 =~= c.nickname + seq!['\t']);
    lemma_count_tabs_concat(c.nickname, seq!['\t']);
    lemma_count_tabs_free(c.nickname);
    assert(count_tabs(l) == 4);
    if c.note.len() == 0 {
        assert(l.last() == prefix.last());
        assert(prefix.last() == '\t');
    } else {
        assert(l.last() == c.note.last());
    }
    if c.nickname.len() > 0 {
        assert(l[0] == c.nickname[0]);
        assert(!crate::text::spec_is_space(c.nickname[0]));
        assert((' ' as u32) == 32);
    } else {
        assert(l[0] == '\t');
    }
}

/// The serialized lines of a sequence of round-trippable records: one
/// content line per record.
pub open spec fn content_lines(cs: Seq<LocalContactView>) -> Seq<Seq<char>> {
    cs.map_values(|c: LocalContactView| content_line(c))
}

proof fn lemma_raw_lines_prefix(p: Seq<char>, rest: Seq<char>)
    requires
        forall|i: int| 0 <= i < p.len() ==> p[i] != '\n',
    ensures
        raw_lines(p + seq!['\n'] + rest) == seq![p] + raw_lines(rest),
    decreases p.len(),
{
    let s = p + seq!['\n'] + rest;
    if p.len() == 0 {
        assert(s[0] == '\n');
        assert(s.drop_first() =~= rest);
        assert(raw_lines(s) =~~= seq![p] + raw_lines(rest));
    } else {
        assert(s[0] == p[0]);
        assert(s.drop_first() =~= p.drop_first() + seq!['\n'] + rest);
        lemma_raw_lines_prefix(p.drop_first(), rest);
        assert(raw_lines(s) == cons_line(seq![p[0]], seq![p.drop_first()] + raw_lines(rest)));
        assert(raw_lines(s) =~~= seq![p] + raw_lines(rest));
    }
}

proof fn lemma_lines_of_serialize(cs: Seq<LocalContactView>)
    requires
        forall|i: int| 0 <= i < cs.len() ==> round_trippable(#[trigger] cs[i]),
    ensures
        lines_of(serialize_spec(cs)) == content_lines(cs),
    decreases cs.len(),
{
    if cs.len() == 0 {
        assert(serialize_spec(cs) =~= Seq::<char>::empty());
        assert(lines_of(serialize_spec(cs)) =~~= content_lines(cs));
    } else {
        let c = cs[0];
        let rest = cs.drop_first();
        assert(forall|i: int| 0 <= i < rest.len() ==> round_trippable(#[trigger] rest[i]));
        lemma_lines_of_serialize(rest);
        lemma_content_line_props(c);
        assert(serialize_spec(cs) =~= content_line(c) + seq!['\n'] + serialize_spec(rest));
        lemma_raw_lines_prefix(content_line(c), serialize_spec(rest));
        assert(raw_lines(serialize_spec(cs)) == seq![content_line(c)] + raw_lines(
            serialize_spec(rest),
        ));
        assert(lines_of(serialize_spec(cs)) =~~= seq![content_line(c)] + lines_of(
            serialize_spec(rest),
        ));
        assert(content_lines(cs) =~~= seq![content_line(c)] + content_lines(rest));
    }
}

pub open spec fn pending_buffer(pending: Option<LocalContactView>) -> Seq<char> {
    match pending {
        None => Seq::empty(),
        Some(p) => content_line(p),
    }
}

pub open spec fn pending_records(pending: Option<LocalContactView>) -> Seq<LocalContactView> {
    match pending {
        None => Seq::empty(),
        Some(p) => seq![p],
    }
}

proof fn lemma_parse_fold(
    cs: Seq<LocalContactView>,
    recs: Seq<LocalContactView>,
    pending: Option<LocalContactView>,
)
    requires
        forall|i: int| 0 <= i < cs.len() ==> round_trippable(#[trigger] cs[i]),
        pending matches Some(p) ==> round_trippable(p) && p.note.len() == 0,
    ensures
        parse_lines(recs, pending_buffer(pending), content_lines(cs)) matches Ok(st)
            && eof_flush(st.0, st.1) == Ok::<Seq<LocalContactView>, FormatError>(
            recs + pending_records(pending) + cs,
        ),
    decreases cs.len(),
{
    let buf = pending_buffer(pending);
    if cs.len() == 0 {
        assert(content_lines(cs) =~~= Seq::<Seq<char>>::empty());
        match pending {
            None => {
                assert(recs + pending_records(pending) + cs =~~= recs);
            },
            Some(p) => {
                lemma_content_line_props(p);
                lemma_finalize_content(p);
                assert(buf.len() > 0);
                assert(eof_flush(recs, buf) == Ok::<Seq<LocalContactView>, FormatError>(
                    recs.push(p),
                ));
                assert(recs + pending_records(pending) + cs =~~= recs.push(p));
            },
        }
    } else {
        let c = cs[0];
        let rest = cs.drop_first();
        let lines = content_lines(cs);
        let line = content_line(c);
        assert(lines[0] == line);
        assert(lines.drop_first() =~~= content_lines(rest));
        assert(forall|i: int| 0 <= i < rest.len() ==> round_trippable(#[trigger] rest[i]));
        lemma_content_line_props(c);
        lemma_finalize_content(c);
        match pending {
            None => {
                assert(count_tabs(buf) == 0) by {
                    assert(buf =~= Seq::<char>::empty());
                }
                if c.note.len() == 0 {
                    assert(is_continuation(line, buf));
                    assert(buf + line =~= line);
                    assert(parse_step(recs, buf, line) == Ok::<_, FormatError>((recs, line)));
                    lemma_parse_fold(rest, recs, Some(c));
                    assert(recs + pending_records(Some(c)) + rest =~~= recs + pending_records(
                        pending,
                    ) + cs);
                } else {
                    assert(line.last() != '\t');
                    assert(!is_continuation(line, buf));
                    assert(!is_soft_wrap(line));
                    assert(buf + line =~= line);
                    assert(parse_step(recs, buf, line) == Ok::<_, FormatError>(
                        (recs.push(c), Seq::<char>::empty()),
                    ));
                    lemma_parse_fold(rest, recs.push(c), None);
                    assert(recs.push(c) + pending_records(None) + rest =~~= recs + pending_records(
                        pending,
                    ) + cs);
                }
            },
            Some(p) => {
                lemma_content_line_props(p);
                lemma_finalize_content(p);
                assert(count_tabs(buf) == 4);
                assert(!is_continuation(line, buf));
                assert(!is_soft_wrap(line));
                assert(buf.len() > 0);
                assert(line.len() > 0);
                assert(parse_step(recs, buf, line) == Ok::<_, FormatError>(
                    (recs.push(p).push(c), Seq::<char>::empty()),
                ));
                lemma_parse_fold(rest, recs.push(p).push(c), None);
                assert(recs.push(p).push(c) + pending_records(None) + rest =~~= recs
                    + pending_records(pending) + cs);
            },
        }
    }
}

/// Serializing any sequence of round-trippable records and parsing the
/// result yields the same sequence back, in order.
pub proof fn lemma_serialize_parse_round_trip(cs: Seq<LocalContactView>)
    requires
        forall|i: int| 0 <= i < cs.len() ==> round_trippable(#[trigger] cs[i]),
    ensures
        parse_spec(serialize_spec(cs)) == Ok::<Seq<LocalContactView>, FormatError>(cs),
{
    lemma_lines_of_serialize(cs);
    lemma_parse_fold(cs, Seq::empty(), None);
    assert(pending_buffer(None) =~= Seq::<char>::empty());
    assert(Seq::<LocalContactView>::empty() + pending_records(None) + cs =~~= cs);
}

/// A record whose note is empty serializes to a line that ends in a tab;
/// parsing it back yields exactly that one record, not two.
pub proof fn lemma_tab_terminated_record_parses_alone(c: LocalContactView)
    requires
        round_trippable(c),
        c.note.len() == 0,
    ensures
        serialize_spec(seq![c]).last() == '\n',
        serialize_spec(seq![c]).drop_last().last() == '\t',
        parse_spec(serialize_spec(seq![c])) == Ok::<Seq<LocalContactView>, FormatError>(seq![c]),
{
    let cs = seq![c];
    assert(forall|i: int| 0 <= i < cs.len() ==> round_trippable(#[trigger] cs[i]));
    lemma_serialize_parse_round_trip(cs);
    lemma_content_line_props(c);
    assert(cs.drop_first() =~= Seq::<LocalContactView>::empty());
    assert(serialize_spec(Seq::<LocalContactView>::empty()) =~= Seq::<char>::empty());
    assert(serialize_spec(cs) =~= content_line(c).push('\n'));
    assert(serialize_spec(cs).drop_last() =~= content_line(c));
}

} // verus!

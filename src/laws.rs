use vstd::prelude::*;

use crate::document::{
    has_equals, header_name, is_closed_header, is_header, is_ignored, parse, parse_state,
    read_result, section_of, split_key_value, DocModel, Ini, IniError,
    error_ends_the_parse,
};
use crate::value::infer;

verus! {

/// A key-value line: neither blank, nor a comment, nor a header, and with an `=`.
pub open spec fn is_key_value(line: Seq<char>) -> bool {
    !is_ignored(line) && !is_header(line) && has_equals(line)
}

/// Reading the same lines twice gives documents with the same sections,
/// keys and values, or the same error.
pub proof fn read_is_deterministic(
    lines: Seq<Seq<char>>,
    r1: Result<Ini, IniError>,
    r2: Result<Ini, IniError>,
)
    requires
        read_result(lines, r1),
        read_result(lines, r2),
    ensures
        r1 is Ok <==> r2 is Ok,
        r1 is Ok ==> r1->Ok_0@ == r2->Ok_0@,
        r1 is Err ==> r1->Err_0 == r2->Err_0,
{
}

proof fn lemma_no_header_keeps_unnamed(lines: Seq<Seq<char>>)
    requires
        forall|i: int| 0 <= i < lines.len() ==> !is_header(#[trigger] lines[i]),
        parse_state(lines) is Ok,
    ensures
        parse_state(lines)->Ok_0.0 == Seq::<char>::empty(),
    decreases lines.len(),
{
    if lines.len() > 0 {
        let d = lines.drop_last();
        assert forall|i: int| 0 <= i < d.len() implies !is_header(#[trigger] d[i]) by {
            assert(d[i] == lines[i]);
        }
        assert(!is_header(lines[lines.len() - 1]));
        lemma_no_header_keeps_unnamed(d);
    }
}

/// A key-value line that no section header comes before puts its key in the
/// section named by the empty string.
pub proof fn keys_before_any_header_go_to_unnamed_section(
    lines: Seq<Seq<char>>,
    line: Seq<char>,
)
    requires
        forall|i: int| 0 <= i < lines.len() ==> !is_header(#[trigger] lines[i]),
        parse(lines) is Ok,
        is_key_value(line),
    ensures
        ({
            let key = split_key_value(line).0;
            let text = split_key_value(line).1;
            let r = parse(lines.push(line));
            &&& r is Ok
            &&& r->Ok_0.contains_key(Seq::<char>::empty())
            &&& r->Ok_0[Seq::<char>::empty()].contains_key(key)
            &&& r->Ok_0[Seq::<char>::empty()][key] == infer(text)
        }),
{
    lemma_no_header_keeps_unnamed(lines);
    assert(lines.push(line).drop_last() =~= lines);
}

/// Of two key-value lines in a row with the same key, the later one wins:
/// the earlier one has no effect on the document.
pub proof fn later_key_overwrites_earlier(
    lines: Seq<Seq<char>>,
    first: Seq<char>,
    second: Seq<char>,
)
    requires
        parse(lines) is Ok,
        is_key_value(first),
        is_key_value(second),
        split_key_value(first).0 == split_key_value(second).0,
    ensures
        parse(lines.push(first).push(second)) == parse(lines.push(second)),
        ({
            let section = parse_state(lines)->Ok_0.0;
            let key = split_key_value(second).0;
            let r = parse(lines.push(second));
            &&& r is Ok
            &&& r->Ok_0[section][key] == infer(split_key_value(second).1)
        }),
{
    let both = lines.push(first).push(second);
    assert(both.drop_last() =~= lines.push(first));
    assert(lines.push(first).drop_last() =~= lines);
    assert(lines.push(second).drop_last() =~= lines);
    let (cur, doc) = parse_state(lines)->Ok_0;
    let key = split_key_value(second).0;
    let v1 = infer(split_key_value(first).1);
    let v2 = infer(split_key_value(second).1);
    let sec = section_of(doc, cur);
    let doc1 = doc.insert(cur, sec.insert(key, v1));
    assert(parse_state(lines.push(first)) == Ok::<(Seq<char>, DocModel), IniError>((cur, doc1)));
    assert(section_of(doc1, cur) == sec.insert(key, v1));
    assert(sec.insert(key, v1).insert(key, v2) =~= sec.insert(key, v2));
    assert(doc1.insert(cur, sec.insert(key, v1).insert(key, v2)) =~= doc.insert(
        cur,
        sec.insert(key, v2),
    ));
}

proof fn lemma_ignored_line_state(
    before: Seq<Seq<char>>,
    line: Seq<char>,
    after: Seq<Seq<char>>,
)
    requires
        is_ignored(line),
    ensures
        parse_state(before.push(line) + after) == parse_state(before + after),
    decreases after.len(),
{
    if after.len() == 0 {
        assert(before.push(line) + after =~= before.push(line));
        assert(before + after =~= before);
        assert(before.push(line).drop_last() =~= before);
    } else {
        let x = after.drop_last();
        lemma_ignored_line_state(before, line, x);
        assert((before.push(line) + after).drop_last() =~= before.push(line) + x);
        assert((before + after).drop_last() =~= before + x);
        assert((before.push(line) + after).last() == after.last());
        assert((before + after).last() == after.last());
    }
}

/// A blank line or a comment line, wherever it stands, changes neither the
/// document nor whether reading fails.
pub proof fn ignored_lines_change_nothing(
    before: Seq<Seq<char>>,
    line: Seq<char>,
    after: Seq<Seq<char>>,
)
    requires
        is_ignored(line),
    ensures
        parse(before.push(line) + after) == parse(before + after),
{
    lemma_ignored_line_state(before, line, after);
}

/// A section header adds nothing to the document: it only names the section
/// that the key-value lines after it go to.
pub proof fn header_only_names_the_current_section(lines: Seq<Seq<char>>, line: Seq<char>)
    requires
        parse(lines) is Ok,
        is_closed_header(line),
    ensures
        parse_state(lines.push(line)) == Ok::<(Seq<char>, DocModel), IniError>(
            (header_name(line), parse(lines)->Ok_0),
        ),
{
    assert(lines.push(line).drop_last() =~= lines);
}

/// A line that opens a section header but does not close it fails the
/// whole parse, whatever follows it, unless an earlier line failed first.
pub proof fn unterminated_header_fails(
    before: Seq<Seq<char>>,
    line: Seq<char>,
    after: Seq<Seq<char>>,
)
    requires
        parse(before) is Ok,
        is_header(line),
        !is_closed_header(line),
    ensures
        parse(before.push(line) + after) == Err::<DocModel, IniError>(
            IniError::UnterminatedSectionHeader,
        ),
{
    let all = before.push(line) + after;
    assert(all.take((before.len() + 1) as int) =~= before.push(line));
    assert(before.push(line).drop_last() =~= before);
    error_ends_the_parse(all, (before.len() + 1) as int);
}

/// A line that is neither blank, a comment nor a header and holds no `=`
/// fails the whole parse, whatever follows it, unless an earlier line failed
/// first.
pub proof fn line_without_equals_fails(
    before: Seq<Seq<char>>,
    line: Seq<char>,
    after: Seq<Seq<char>>,
)
    requires
        parse(before) is Ok,
        !is_ignored(line),
        !is_header(line),
        !has_equals(line),
    ensures
        parse(before.push(line) + after) == Err::<DocModel, IniError>(IniError::MalformedKeyValue),
{
    let all = before.push(line) + after;
    assert(all.take((before.len() + 1) as int) =~= before.push(line));
    assert(before.push(line).drop_last() =~= before);
    error_ends_the_parse(all, (before.len() + 1) as int);
}

} // verus!

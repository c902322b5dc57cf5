//! Substitution: filling a template with each match's groups and splicing the
//! results into the subject. Offsets are byte offsets into the subject's UTF-8
//! encoding, as regular expression engines report them.
use vstd::prelude::*;
use vstd::string::*;
use vstd::utf8::*;
use crate::error::ErrorKind;

verus! {

/// The byte `\`.
pub const BACKSLASH: u8 = 92;

/// The byte `0`.
pub const DIGIT_ZERO: u8 = 48;

/// The byte `9`.
pub const DIGIT_NINE: u8 = 57;

/// One match: for each group of the pattern (group 0 is the whole match) the
/// byte range it captured, or `None` where it captured nothing.
#[derive(Clone, Debug)]
pub struct MatchSpans {
    pub groups: Vec<Option<(usize, usize)>>,
}

/// Start of a byte range.
pub open spec fn lo(p: (usize, usize)) -> int {
    p.0 as int
}

/// End of a byte range.
pub open spec fn hi(p: (usize, usize)) -> int {
    p.1 as int
}

/// A range that lies inside a text of `len` bytes.
pub open spec fn span_ok(p: (usize, usize), len: int) -> bool {
    lo(p) <= hi(p) <= len
}

/// The bytes a group captured: empty when it captured nothing or its range
/// does not lie inside the subject.
pub open spec fn group_text(g: Option<(usize, usize)>, subject: Seq<u8>) -> Seq<u8> {
    match g {
        Some(p) => if span_ok(p, subject.len() as int) {
            subject.subrange(lo(p), hi(p))
        } else {
            Seq::<u8>::empty()
        },
        None => Seq::<u8>::empty(),
    }
}

pub open spec fn is_digit(b: u8) -> bool {
    DIGIT_ZERO <= b <= DIGIT_NINE
}

/// The template with each `\N` (`N` a digit naming a group of the match)
/// replaced by that group's text, in one pass from the left. A `\N` whose group
/// the pattern does not have stays as it is.
pub open spec fn expand(template: Seq<u8>, groups: Seq<Option<(usize, usize)>>, subject: Seq<u8>) -> Seq<u8>
    decreases template.len(),
{
    if template.len() >= 2 && template[0] == BACKSLASH && is_digit(template[1])
        && template[1] - DIGIT_ZERO < groups.len() {
        group_text(groups[template[1] - DIGIT_ZERO], subject) + expand(
            template.subrange(2, template.len() as int),
            groups,
            subject,
        )
    } else if template.len() >= 1 {
        seq![template[0]] + expand(template.subrange(1, template.len() as int), groups, subject)
    } else {
        Seq::<u8>::empty()
    }
}

/// Byte range of the whole of match `m`.
pub open spec fn whole(m: MatchSpans) -> (usize, usize) {
    m.groups@[0]->0
}

/// The matches have a whole-match range each, inside a subject of `len`
/// bytes, and come in order without overlapping.
pub open spec fn well_placed(ms: Seq<MatchSpans>, len: int) -> bool {
    &&& forall|i: int|
        0 <= i < ms.len() ==> (#[trigger] ms[i]).groups@.len() >= 1 && ms[i].groups@[0] is Some
            && span_ok(whole(ms[i]), len)
    &&& forall|i: int| 0 <= i < ms.len() - 1 ==> hi(whole(#[trigger] ms[i])) <= lo(whole(ms[i + 1]))
}

/// The subject from byte `last` on, with each match replaced by its expansion
/// of the template.
pub open spec fn assemble(subject: Seq<u8>, template: Seq<u8>, ms: Seq<MatchSpans>, last: int) -> Seq<u8>
    decreases ms.len(),
{
    if ms.len() == 0 {
        subject.subrange(last, subject.len() as int)
    } else {
        subject.subrange(last, lo(whole(ms[0]))) + expand(template, ms[0].groups@, subject)
            + assemble(subject, template, ms.drop_first(), hi(whole(ms[0])))
    }
}

/// The bytes of the result of substituting `template` for the matches `ms` in `subject`.
pub open spec fn substituted(subject: Seq<char>, template: Seq<char>, ms: Seq<MatchSpans>) -> Seq<u8> {
    assemble(encode_utf8(subject), encode_utf8(template), ms, 0)
}

/// Appends `bytes[from..to]` to `out`.
fn push_range(out: &mut Vec<u8>, bytes: &[u8], from: usize, to: usize)
    requires
        from <= to <= bytes@.len(),
    ensures
        final(out)@ == old(out)@ + bytes@.subrange(from as int, to as int),
{
    let mut k: usize = from;
    while k < to
        invariant
            from <= k <= to,
            to <= bytes@.len(),
            out@ == old(out)@ + bytes@.subrange(from as int, k as int),
        decreases to - k,
    {
        out.push(bytes[k]);
        k += 1;
        assert(out@ =~= old(out)@ + bytes@.subrange(from as int, k as int));
    }
}

/// Appends the text of one group to `out`.
fn push_group(out: &mut Vec<u8>, g: Option<(usize, usize)>, subject: &[u8])
    ensures
        final(out)@ == old(out)@ + group_text(g, subject@),
{
    match g {
        Some((a, b)) => {
            if a <= b && b <= subject.len() {
                push_range(out, subject, a, b);
            } else {
                assert(out@ =~= out@ + Seq::<u8>::empty());
            }
        },
        None => {
            assert(out@ =~= out@ + Seq::<u8>::empty());
        },
    }
}

/// Appends the template, filled in with the groups of one match, to `out`.
fn push_expansion(out: &mut Vec<u8>, template: &[u8], groups: &Vec<Option<(usize, usize)>>, subject: &[u8])
    ensures
        final(out)@ == old(out)@ + expand(template@, groups@, subject@),
{
    let n = template.len();
    let mut i: usize = 0;
    let ghost start = out@;
    proof {
        assert(template@.subrange(0, n as int) =~= template@);
    }
    while i < n
        invariant
            n == template@.len(),
            i <= n,
            start + expand(template@, groups@, subject@) == out@ + expand(
                template@.subrange(i as int, n as int),
                groups@,
                subject@,
            ),
        decreases n - i,
    {
        let ghost x = template@.subrange(i as int, n as int);
        let b = template[i];
        if b == BACKSLASH && i + 1 < n && DIGIT_ZERO <= template[i + 1] && template[i + 1] <= DIGIT_NINE
            && ((template[i + 1] - DIGIT_ZERO) as usize) < groups.len() {
            let g = groups[(template[i + 1] - DIGIT_ZERO) as usize];
            let ghost before = out@;
            push_group(out, g, subject);
            proof {
                assert(x.subrange(2, x.len() as int) =~= template@.subrange(i + 2, n as int));
                assert(before + (group_text(g, subject@) + expand(x.subrange(2, x.len() as int), groups@, subject@))
                    =~= out@ + expand(template@.subrange(i + 2, n as int), groups@, subject@));
            }
            i += 2;
        } else {
            let ghost before = out@;
            out.push(b);
            proof {
                assert(x.subrange(1, x.len() as int) =~= template@.subrange(i + 1, n as int));
                assert(before + (seq![x[0]] + expand(x.subrange(1, x.len() as int), groups@, subject@))
                    =~= out@ + expand(template@.subrange(i + 1, n as int), groups@, subject@));
            }
            i += 1;
        }
    }
    proof {
        assert(out@ + expand(template@.subrange(i as int, n as int), groups@, subject@) =~= out@);
    }
}

/// The template with each `\N` replaced by group `N` of the match, as bytes.
pub fn replace(m: &MatchSpans, template: &str, subject: &str) -> (r: Vec<u8>)
    ensures
        r@ == expand(encode_utf8(template@), m.groups@, encode_utf8(subject@)),
{
    let mut out: Vec<u8> = Vec::new();
    push_expansion(&mut out, template.as_bytes(), &m.groups, subject.as_bytes());
    assert(out@ =~= Seq::<u8>::empty() + expand(encode_utf8(template@), m.groups@, encode_utf8(subject@)));
    out
}

/// `subject` with every match in `matches` replaced by the template filled in
/// with that match's groups, as bytes.
pub fn replace_all(subject: &str, replace_str: &str, matches: &Vec<MatchSpans>) -> (r: Vec<u8>)
    requires
        well_placed(matches@, encode_utf8(subject@).len() as int),
    ensures
        r@ == substituted(subject@, replace_str@, matches@),
{
    let bytes = subject.as_bytes();
    let template = replace_str.as_bytes();
    let len = bytes.len();
    let n = matches.len();
    let mut new_str: Vec<u8> = Vec::new();
    let mut last_end: usize = 0;
    let mut k: usize = 0;
    let ghost full = assemble(bytes@, template@, matches@, 0);
    proof {
        assert(matches@.subrange(0, n as int) =~= matches@);
        assert(full =~= new_str@ + full);
    }
    while k < n
        invariant
            n == matches@.len(),
            len == bytes@.len(),
            k <= n,
            well_placed(matches@, len as int),
            last_end <= len,
            k < n ==> last_end <= lo(whole(matches@[k as int])),
            full == new_str@ + assemble(bytes@, template@, matches@.subrange(k as int, n as int), last_end as int),
        decreases n - k,
    {
        let m = &matches[k];
        let ghost rest = matches@.subrange(k as int, n as int);
        let (start, end) = m.groups[0].unwrap();
        let ghost before = new_str@;
        push_range(&mut new_str, bytes, last_end, start);
        let ghost mid = new_str@;
        push_expansion(&mut new_str, template, &m.groups, bytes);
        proof {
            assert(rest[0] == matches@[k as int]);
            assert(rest.drop_first() =~= matches@.subrange(k + 1, n as int));
            assert(before + (bytes@.subrange(last_end as int, start as int) + expand(template@, m.groups@, bytes@)
                + assemble(bytes@, template@, rest.drop_first(), end as int)) =~= new_str@ + assemble(
                bytes@,
                template@,
                matches@.subrange(k + 1, n as int),
                end as int,
            ));
        }
        last_end = end;
        k += 1;
    }
    push_range(&mut new_str, bytes, last_end, len);
    proof {
        assert(matches@.subrange(k as int, n as int) =~= Seq::<MatchSpans>::empty());
    }
    new_str
}

/// Relies on `String::from_utf8`: it accepts exactly the well-formed UTF-8
/// byte sequences, and the string it returns holds those bytes.
#[verifier::external_body]
fn string_from_utf8(bytes: Vec<u8>) -> (r: Option<String>)
    ensures
        r is Some <==> valid_utf8(bytes@),
        r is Some ==> encode_utf8(r->0@) == bytes@,
{
    String::from_utf8(bytes).ok()
}

/// The reply text made of `bytes`: refused when empty or when not UTF-8.
pub fn finish_reply(bytes: Vec<u8>) -> (r: Result<String, ErrorKind>)
    ensures
        bytes@.len() == 0 ==> r is Err && r->Err_0 is EmptyResult,
        bytes@.len() > 0 && !valid_utf8(bytes@) ==> r is Err && r->Err_0 is BrokenCharacter,
        bytes@.len() > 0 && valid_utf8(bytes@) ==> r is Ok && r->Ok_0@ == decode_utf8(bytes@),
{
    if bytes.len() == 0 {
        return Err(ErrorKind::EmptyResult);
    }
    match string_from_utf8(bytes) {
        Some(s) => {
            proof {
                encode_utf8_decode_utf8(s@);
            }
            Ok(s)
        },
        None => Err(ErrorKind::BrokenCharacter),
    }
}

/// The reply for substituting `replace_str` for the matches in `subject`.
pub fn substitute(subject: &str, replace_str: &str, matches: &Vec<MatchSpans>) -> (r: Result<String, ErrorKind>)
    requires
        well_placed(matches@, encode_utf8(subject@).len() as int),
    ensures
        ({
            let out = substituted(subject@, replace_str@, matches@);
            &&& out.len() == 0 ==> r is Err && r->Err_0 is EmptyResult
            &&& out.len() > 0 && !valid_utf8(out) ==> r is Err && r->Err_0 is BrokenCharacter
            &&& out.len() > 0 && valid_utf8(out) ==> r is Ok && r->Ok_0@ == decode_utf8(out)
        }),
{
    finish_reply(replace_all(subject, replace_str, matches))
}

} // verus!

verus! {

/// With no match, the substitution gives back the subject: its bytes, and so
/// its text.
pub proof fn lemma_no_match_keeps_subject(subject: Seq<char>, template: Seq<char>)
    ensures
        substituted(subject, template, Seq::<MatchSpans>::empty()) == encode_utf8(subject),
        valid_utf8(encode_utf8(subject)),
        decode_utf8(substituted(subject, template, Seq::<MatchSpans>::empty())) == subject,
{
    let b = encode_utf8(subject);
    assert(b.subrange(0, b.len() as int) =~= b);
    encode_utf8_valid_utf8(subject);
    encode_utf8_decode_utf8(subject);
}

} // verus!

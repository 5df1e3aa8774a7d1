//! Metadata records: two string-to-string mappings, `attribute` and
//! `sub_data`, with a dirty bit, and their text encoding
//! `k=v;k=v;$k=v;k=v;`.
use vstd::prelude::*;
use vstd::utf8::*;
use vstd::string::StrSliceExecFns;
use crate::blocks::{push_bytes, string_from_utf8};

verus! {

broadcast use vstd::seq_lib::group_seq_properties;

/// Key/value entries as character sequences.
pub type Entries = Seq<(Seq<char>, Seq<char>)>;

/// The entries of a vector of string pairs.
pub open spec fn entries_view(es: Seq<(String, String)>) -> Entries {
    es.map_values(|e: (String, String)| (e.0@, e.1@))
}

/// `m` with the entries inserted in order, a later one overriding an earlier one.
pub open spec fn insert_all(m: Map<Seq<char>, Seq<char>>, es: Entries) -> Map<Seq<char>, Seq<char>>
    decreases es.len(),
{
    if es.len() == 0 {
        m
    } else {
        insert_all(m, es.drop_last()).insert(es.last().0, es.last().1)
    }
}

/// The mapping that entries stand for, a later entry overriding an earlier one.
pub open spec fn to_map(es: Entries) -> Map<Seq<char>, Seq<char>> {
    insert_all(Map::empty(), es)
}

/// Whether no two entries share a key.
pub open spec fn unique_keys(es: Entries) -> bool {
    forall|i: int, j: int| 0 <= i < j < es.len() ==> (#[trigger] es[i]).0 != (#[trigger] es[j]).0
}

/// A metadata record.
pub struct Metadata {
    has_modified: bool,
    attribute: Vec<(String, String)>,
    sub_data: Vec<(String, String)>,
}

/// Why metadata text could not be read.
#[derive(Clone, Copy, Debug, PartialEq, Eq, Structural)]
pub enum MetadataError {
    /// The bytes are not valid UTF-8.
    InvalidText,
    /// There is no `$` between the two sections.
    MissingSection,
    /// A non-empty token has no `=`.
    MalformedToken,
}

/// Whether a string may serve as a key or value: it holds no `;`, `=` or `$`.
pub open spec fn plain_text(s: Seq<char>) -> bool {
    forall|i: int| 0 <= i < s.len() ==> #[trigger] s[i] != ';' && s[i] != '=' && s[i] != '$'
}

/// The text of one section: `k=v;` for each entry in order.
pub open spec fn section_text(es: Entries) -> Seq<char>
    decreases es.len(),
{
    if es.len() == 0 {
        seq![]
    } else {
        section_text(es.drop_last()) + es.last().0 + seq!['='] + es.last().1 + seq![';']
    }
}

/// The text of a record: the attribute section, `$`, the sub-data section.
pub open spec fn metadata_text(attribute: Entries, sub_data: Entries) -> Seq<char> {
    section_text(attribute) + seq!['$'] + section_text(sub_data)
}

/// `s` cut at every `sep`; there is always at least one piece.
pub open spec fn split(s: Seq<char>, sep: char) -> Seq<Seq<char>>
    decreases s.len(),
{
    if s.len() == 0 {
        seq![seq![]]
    } else {
        let p = split(s.drop_last(), sep);
        if s.last() == sep {
            p.push(seq![])
        } else {
            p.update(p.len() - 1, p.last().push(s.last()))
        }
    }
}

/// The entries of a section's pieces: empty pieces are skipped, and each other
/// piece gives the text before its first `=` as key and the text up to the next
/// `=` as value.
pub open spec fn tokens(pieces: Seq<Seq<char>>) -> Option<Entries>
    decreases pieces.len(),
{
    if pieces.len() == 0 {
        Some(seq![])
    } else {
        match tokens(pieces.drop_last()) {
            None => None,
            Some(ts) => {
                let p = pieces.last();
                if p.len() == 0 {
                    Some(ts)
                } else {
                    let kv = split(p, '=');
                    if kv.len() < 2 {
                        None
                    } else {
                        Some(ts.push((kv[0], kv[1])))
                    }
                }
            },
        }
    }
}

/// The attribute entries of a parsed record.
pub open spec fn attribute_part(p: (Entries, Entries)) -> Entries {
    p.0
}

/// The sub-data entries of a parsed record.
pub open spec fn sub_data_part(p: (Entries, Entries)) -> Entries {
    p.1
}

/// The entries of the two sections that encoded metadata holds.
pub open spec fn parse_metadata(b: Seq<u8>) -> Result<(Entries, Entries), MetadataError> {
    if !valid_utf8(b) {
        Err(MetadataError::InvalidText)
    } else {
        let secs = split(decode_utf8(b), '$');
        if secs.len() < 2 {
            Err(MetadataError::MissingSection)
        } else {
            match (tokens(split(secs[0], ';')), tokens(split(secs[1], ';'))) {
                (Some(a), Some(s)) => Ok((a, s)),
                _ => Err(MetadataError::MalformedToken),
            }
        }
    }
}

/// The characters of a string, in order.
pub(crate) fn chars_of(s: &str) -> (r: Vec<char>)
    ensures
        r@ == s@,
{
    let n = s.unicode_len();
    let mut r: Vec<char> = Vec::new();
    let mut i: usize = 0;
    while i < n
        invariant
            i <= n,
            n == s@.len(),
            r@ == s@.subrange(0, i as int),
        decreases n - i,
    {
        r.push(s.get_char(i));
        i += 1;
        assert(r@ =~= s@.subrange(0, i as int));
    }
    assert(s@.subrange(0, n as int) =~= s@);
    r
}

proof fn lemma_encode_utf8_push(s: Seq<char>, c: char)
    ensures
        encode_utf8(s.push(c)) == encode_utf8(s) + encode_scalar(c as u32),
    decreases s.len(),
{
    if s.len() == 0 {
        assert(s.push(c).drop_first() =~= Seq::<char>::empty());
        assert(encode_scalar(c as u32) + Seq::<u8>::empty() =~= encode_scalar(c as u32));
        assert(Seq::<u8>::empty() + encode_scalar(c as u32) =~= encode_scalar(c as u32));
    } else {
        assert(s.push(c).drop_first() =~= s.drop_first().push(c));
        lemma_encode_utf8_push(s.drop_first(), c);
        assert(encode_scalar(s[0] as u32) + (encode_utf8(s.drop_first()) + encode_scalar(c as u32))
            =~= (encode_scalar(s[0] as u32) + encode_utf8(s.drop_first())) + encode_scalar(c as u32));
    }
}

/// Appends the UTF-8 encoding of a character.
fn push_utf8(out: &mut Vec<u8>, c: char)
    ensures
        final(out)@ == old(out)@ + encode_scalar(c as u32),
{
    proof {
        char_is_scalar(c);
    }
    let v = c as u32;
    if v <= 0x7f {
        out.push((v & 0x7F) as u8);
    } else if v <= 0x7ff {
        out.push(0xC0 | ((v >> 6) & 0x1F) as u8);
        out.push(0x80 | (v & 0x3F) as u8);
    } else if v <= 0xffff {
        out.push(0xE0 | ((v >> 12) & 0x0F) as u8);
        out.push(0x80 | ((v >> 6) & 0x3F) as u8);
        out.push(0x80 | (v & 0x3F) as u8);
    } else {
        out.push(0xF0 | ((v >> 18) & 0x7) as u8);
        out.push(0x80 | ((v >> 12) & 0x3F) as u8);
        out.push(0x80 | ((v >> 6) & 0x3F) as u8);
        out.push(0x80 | (v & 0x3F) as u8);
    }
    assert(final(out)@ =~= old(out)@ + encode_scalar(c as u32));
}

/// The string of exactly these characters.
pub(crate) fn string_of(c: &[char]) -> (r: String)
    ensures
        r@ == c@,
{
    let mut bytes: Vec<u8> = Vec::new();
    let mut i: usize = 0;
    while i < c.len()
        invariant
            i <= c@.len(),
            bytes@ == encode_utf8(c@.take(i as int)),
        decreases c@.len() - i,
    {
        proof {
            lemma_encode_utf8_push(c@.take(i as int), c@[i as int]);
            assert(c@.take(i as int).push(c@[i as int]) =~= c@.take(i + 1));
        }
        push_utf8(&mut bytes, c[i]);
        i += 1;
    }
    assert(c@.take(i as int) =~= c@);
    proof {
        encode_utf8_valid_utf8(c@);
        encode_utf8_decode_utf8(c@);
    }
    match string_from_utf8(bytes) {
        Some(s) => s,
        None => String::new(),
    }
}

/// Appends characters to a buffer.
pub(crate) fn push_chars(dst: &mut Vec<char>, src: &[char])
    ensures
        final(dst)@ == old(dst)@ + src@,
{
    let mut i: usize = 0;
    while i < src.len()
        invariant
            i <= src@.len(),
            dst@ == old(dst)@ + src@.subrange(0, i as int),
        decreases src@.len() - i,
    {
        dst.push(src[i]);
        i += 1;
        assert(src@.subrange(0, i as int) == src@.subrange(0, i - 1) + seq![src@[i - 1]]);
    }
    assert(src@.subrange(0, i as int) == src@);
}

/// Cuts `s` at every `sep`.
pub(crate) fn split_chars(s: &[char], sep: char) -> (r: Vec<Vec<char>>)
    ensures
        r@.map_values(|p: Vec<char>| p@) == split(s@, sep),
        r@.len() >= 1,
{
    let mut r: Vec<Vec<char>> = Vec::new();
    let mut cur: Vec<char> = Vec::new();
    let mut i: usize = 0;
    while i < s.len()
        invariant
            i <= s@.len(),
            r@.map_values(|p: Vec<char>| p@).push(cur@) == split(s@.take(i as int), sep),
        decreases s@.len() - i,
    {
        assert(s@.take(i + 1).drop_last() =~= s@.take(i as int));
        let ghost before = r@.map_values(|p: Vec<char>| p@).push(cur@);
        if s[i] == sep {
            r.push(cur);
            cur = Vec::new();
            assert(r@.map_values(|p: Vec<char>| p@).push(cur@) =~= before.push(seq![]));
        } else {
            cur.push(s[i]);
            assert(r@.map_values(|p: Vec<char>| p@).push(cur@) =~= before.update(
                before.len() - 1,
                before.last().push(s@[i as int]),
            ));
        }
        i += 1;
    }
    assert(s@.take(i as int) =~= s@);
    let ghost before = r@.map_values(|p: Vec<char>| p@);
    r.push(cur);
    assert(r@.map_values(|p: Vec<char>| p@) =~= before.push(cur@));
    r
}

proof fn lemma_to_map_push(es: Entries, e: (Seq<char>, Seq<char>))
    ensures
        to_map(es.push(e)) == to_map(es).insert(e.0, e.1),
{
    assert(es.push(e).drop_last() =~= es);
}

pub(crate) proof fn lemma_to_map_get(es: Entries, i: int)
    requires
        unique_keys(es),
        0 <= i < es.len(),
    ensures
        to_map(es).contains_key(es[i].0),
        to_map(es)[es[i].0] == es[i].1,
    decreases es.len(),
{
    if i < es.len() - 1 {
        let dl = es.drop_last();
        assert(dl[i] == es[i]);
        lemma_to_map_get(dl, i);
        assert(es[es.len() - 1].0 != es[i].0);
    }
}

proof fn lemma_to_map_absent(es: Entries, k: Seq<char>)
    requires
        forall|i: int| 0 <= i < es.len() ==> (#[trigger] es[i]).0 != k,
    ensures
        !to_map(es).contains_key(k),
    decreases es.len(),
{
    if es.len() > 0 {
        let dl = es.drop_last();
        assert forall|i: int| 0 <= i < dl.len() implies (#[trigger] dl[i]).0 != k by {
            assert(dl[i] == es[i]);
        }
        lemma_to_map_absent(dl, k);
    }
}

proof fn lemma_to_map_update(es: Entries, i: int, v: Seq<char>)
    requires
        unique_keys(es),
        0 <= i < es.len(),
    ensures
        to_map(es.update(i, (es[i].0, v))) == to_map(es).insert(es[i].0, v),
        unique_keys(es.update(i, (es[i].0, v))),
    decreases es.len(),
{
    let k = es[i].0;
    let nes = es.update(i, (k, v));
    assert(unique_keys(nes)) by {
        assert forall|a: int, b: int| 0 <= a < b < nes.len() implies (#[trigger] nes[a]).0 != (
        #[trigger] nes[b]).0 by {
            assert(nes[a].0 == es[a].0);
            assert(nes[b].0 == es[b].0);
        }
    }
    if i == es.len() - 1 {
        assert(nes.drop_last() =~= es.drop_last());
        assert(to_map(nes) =~= to_map(es).insert(k, v));
    } else {
        let dl = es.drop_last();
        assert(nes.drop_last() =~= dl.update(i, (k, v)));
        assert(dl[i] == es[i]);
        lemma_to_map_update(dl, i, v);
        let last = es.last();
        assert(last.0 != k);
        assert(to_map(nes) =~= to_map(es).insert(k, v));
    }
}

proof fn lemma_to_map_remove(es: Entries, i: int)
    requires
        unique_keys(es),
        0 <= i < es.len(),
    ensures
        to_map(es.remove(i)) == to_map(es).remove(es[i].0),
        unique_keys(es.remove(i)),
    decreases es.len(),
{
    let k = es[i].0;
    let nes = es.remove(i);
    assert(unique_keys(nes)) by {
        assert forall|a: int, b: int| 0 <= a < b < nes.len() implies (#[trigger] nes[a]).0 != (
        #[trigger] nes[b]).0 by {
            let a2 = if a < i { a } else { a + 1 };
            let b2 = if b < i { b } else { b + 1 };
            assert(nes[a] == es[a2]);
            assert(nes[b] == es[b2]);
        }
    }
    let dl = es.drop_last();
    if i == es.len() - 1 {
        assert(nes =~= dl);
        assert forall|j: int| 0 <= j < dl.len() implies (#[trigger] dl[j]).0 != k by {
            assert(dl[j] == es[j]);
        }
        lemma_to_map_absent(dl, k);
        assert(to_map(nes) =~= to_map(es).remove(k));
    } else {
        assert(nes.drop_last() =~= dl.remove(i));
        assert(nes.last() == es.last());
        assert(dl[i] == es[i]);
        lemma_to_map_remove(dl, i);
        assert(es.last().0 != k);
        assert(to_map(nes) =~= to_map(es).remove(k));
    }
}

proof fn lemma_entries_view_push(es: Seq<(String, String)>, e: (String, String))
    ensures
        entries_view(es.push(e)) == entries_view(es).push((e.0@, e.1@)),
{
    assert(entries_view(es.push(e)) =~= entries_view(es).push((e.0@, e.1@)));
}

/// Position of the entry with key `k`.
fn find_key(es: &Vec<(String, String)>, k: &String) -> (r: Option<usize>)
    ensures
        match r {
            Some(i) => i < es@.len() && es@[i as int].0@ == k@,
            None => forall|i: int| 0 <= i < es@.len() ==> (#[trigger] entries_view(es@)[i]).0 != k@,
        },
{
    let mut i: usize = 0;
    while i < es.len()
        invariant
            i <= es@.len(),
            forall|j: int| 0 <= j < i ==> (#[trigger] entries_view(es@)[j]).0 != k@,
        decreases es@.len() - i,
    {
        if es[i].0 == *k {
            return Some(i);
        }
        i += 1;
    }
    None
}

/// Sets the value of `k`, adding an entry where there is none.
fn upsert(es: &mut Vec<(String, String)>, k: String, v: String)
    requires
        unique_keys(entries_view(old(es)@)),
    ensures
        unique_keys(entries_view(final(es)@)),
        (forall|i: int| 0 <= i < old(es)@.len() ==> (#[trigger] entries_view(old(es)@)[i]).0 != k@)
            ==> entries_view(final(es)@) == entries_view(old(es)@).push((k@, v@)),
        to_map(entries_view(final(es)@)) == to_map(entries_view(old(es)@)).insert(k@, v@),
{
    match find_key(es, &k) {
        Some(i) => {
            let ghost ev = entries_view(es@);
            proof {
                lemma_to_map_update(ev, i as int, v@);
            }
            es.set(i, (k, v));
            assert(entries_view(es@) =~= ev.update(i as int, (ev[i as int].0, v@)));
        },
        None => {
            let ghost ev = entries_view(es@);
            proof {
                lemma_entries_view_push(es@, (k, v));
                lemma_to_map_push(ev, (k@, v@));
            }
            es.push((k, v));
            assert(unique_keys(entries_view(es@))) by {
                let nv = entries_view(es@);
                assert forall|a: int, b: int| 0 <= a < b < nv.len() implies (#[trigger] nv[a]).0 != (
                #[trigger] nv[b]).0 by {
                    if b == nv.len() - 1 {
                        assert(nv[a] == ev[a]);
                    } else {
                        assert(nv[a] == ev[a]);
                        assert(nv[b] == ev[b]);
                    }
                }
            }
        },
    }
}

/// Adds an entry for `k` unless there is one.
fn insert_absent(es: &mut Vec<(String, String)>, k: String, v: String)
    requires
        unique_keys(entries_view(old(es)@)),
    ensures
        unique_keys(entries_view(final(es)@)),
        entries_view(final(es)@) == if to_map(entries_view(old(es)@)).contains_key(k@) {
            entries_view(old(es)@)
        } else {
            entries_view(old(es)@).push((k@, v@))
        },
        to_map(entries_view(final(es)@)) == if to_map(entries_view(old(es)@)).contains_key(k@) {
            to_map(entries_view(old(es)@))
        } else {
            to_map(entries_view(old(es)@)).insert(k@, v@)
        },
{
    match find_key(es, &k) {
        Some(i) => {
            proof {
                assert(entries_view(es@)[i as int].0 == k@);
                lemma_to_map_get(entries_view(es@), i as int);
            }
        },
        None => {
            proof {
                lemma_to_map_absent(entries_view(es@), k@);
            }
            upsert(es, k, v);
        },
    }
}

/// Removes the entry for `k`, if any.
fn remove_key(es: &mut Vec<(String, String)>, k: &String)
    requires
        unique_keys(entries_view(old(es)@)),
    ensures
        unique_keys(entries_view(final(es)@)),
        to_map(entries_view(final(es)@)) == to_map(entries_view(old(es)@)).remove(k@),
{
    match find_key(es, k) {
        Some(i) => {
            let ghost ev = entries_view(es@);
            proof {
                lemma_to_map_remove(ev, i as int);
            }
            es.remove(i);
            assert(entries_view(es@) =~= ev.remove(i as int));
        },
        None => {
            proof {
                lemma_to_map_absent(entries_view(es@), k@);
            }
            assert(to_map(entries_view(es@)) =~= to_map(entries_view(es@)).remove(k@));
        },
    }
}

/// The value for `k`.
fn lookup<'a>(es: &'a Vec<(String, String)>, k: &str) -> (r: Option<&'a String>)
    requires
        unique_keys(entries_view(es@)),
    ensures
        match r {
            Some(v) => to_map(entries_view(es@)).contains_key(k@) && to_map(entries_view(es@))[k@]
                == v@,
            None => !to_map(entries_view(es@)).contains_key(k@),
        },
{
    let key = k.to_owned();
    match find_key(es, &key) {
        Some(i) => {
            proof {
                assert(entries_view(es@)[i as int] == (es@[i as int].0@, es@[i as int].1@));
                lemma_to_map_get(entries_view(es@), i as int);
            }
            Some(&es[i].1)
        },
        None => {
            proof {
                lemma_to_map_absent(entries_view(es@), k@);
            }
            None
        },
    }
}

/// Appends the text of a section: `k=v;` for each entry.
fn push_section(text: &mut Vec<char>, es: &Vec<(String, String)>)
    ensures
        final(text)@ == old(text)@ + section_text(entries_view(es@)),
{
    let ghost ev = entries_view(es@);
    let mut i: usize = 0;
    while i < es.len()
        invariant
            i <= es@.len(),
            ev == entries_view(es@),
            text@ == old(text)@ + section_text(ev.take(i as int)),
        decreases es@.len() - i,
    {
        assert(ev.take(i + 1).drop_last() =~= ev.take(i as int));
        assert(ev[i as int] == (es@[i as int].0@, es@[i as int].1@));
        let k = chars_of(es[i].0.as_str());
        push_chars(text, k.as_slice());
        text.push('=');
        let v = chars_of(es[i].1.as_str());
        push_chars(text, v.as_slice());
        text.push(';');
        assert(text@ =~= old(text)@ + section_text(ev.take(i + 1)));
        i += 1;
    }
    assert(ev.take(i as int) =~= ev);
}

proof fn lemma_tokens_prefix(pieces: Seq<Seq<char>>, k: int)
    requires
        0 <= k <= pieces.len(),
        tokens(pieces.take(k)) is None,
    ensures
        tokens(pieces) is None,
    decreases pieces.len() - k,
{
    if k < pieces.len() {
        assert(pieces.take(k + 1).drop_last() =~= pieces.take(k));
        lemma_tokens_prefix(pieces, k + 1);
    } else {
        assert(pieces.take(k) =~= pieces);
    }
}

/// The attribute pairs of a parsed record.
spec fn attribute_pairs(p: (Vec<(String, String)>, Vec<(String, String)>)) -> Vec<(String, String)> {
    p.0
}

/// The sub-data pairs of a parsed record.
spec fn sub_data_pairs(p: (Vec<(String, String)>, Vec<(String, String)>)) -> Vec<(String, String)> {
    p.1
}

/// The entries of one section's text.
fn section_entries(sec: &Vec<char>) -> (r: Option<Vec<(String, String)>>)
    ensures
        match tokens(split(sec@, ';')) {
            None => r is None,
            Some(ts) => r is Some && entries_view(r->0@) == ts,
        },
{
    let pieces = split_chars(sec.as_slice(), ';');
    let ghost pv = pieces@.map_values(|p: Vec<char>| p@);
    let mut out: Vec<(String, String)> = Vec::new();
    let mut j: usize = 0;
    while j < pieces.len()
        invariant
            j <= pieces@.len(),
            pv == pieces@.map_values(|p: Vec<char>| p@),
            pv == split(sec@, ';'),
            tokens(pv.take(j as int)) == Some(entries_view(out@)),
        decreases pieces@.len() - j,
    {
        assert(pv.take(j + 1).drop_last() =~= pv.take(j as int));
        assert(pv.take(j + 1).last() == pieces@[j as int]@);
        if pieces[j].len() > 0 {
            let kv = split_chars(pieces[j].as_slice(), '=');
            let ghost kvv = kv@.map_values(|p: Vec<char>| p@);
            if kv.len() < 2 {
                proof {
                    lemma_tokens_prefix(pv, j + 1);
                }
                return None;
            }
            assert(kvv[0] == kv@[0]@ && kvv[1] == kv@[1]@);
            let k = string_of(kv[0].as_slice());
            let v = string_of(kv[1].as_slice());
            proof {
                lemma_entries_view_push(out@, (k, v));
            }
            out.push((k, v));
        }
        j += 1;
    }
    assert(pv.take(j as int) =~= pv);
    Some(out)
}

/// The entries of both sections of encoded metadata.
fn parse_sections(b: Vec<u8>) -> (r: Result<(Vec<(String, String)>, Vec<(String, String)>), MetadataError>)
    ensures
        match parse_metadata(b@) {
            Ok((a, s)) => r is Ok && entries_view(attribute_pairs(r->Ok_0)@) == a && entries_view(sub_data_pairs(r->Ok_0)@) == s,
            Err(e) => r == Err::<(Vec<(String, String)>, Vec<(String, String)>), MetadataError>(e),
        },
{
    let ghost bv = b@;
    let text = match string_from_utf8(b) {
        None => {
            return Err(MetadataError::InvalidText);
        },
        Some(t) => t,
    };
    let chars = chars_of(text.as_str());
    let secs = split_chars(chars.as_slice(), '$');
    let ghost sv = secs@.map_values(|p: Vec<char>| p@);
    if secs.len() < 2 {
        return Err(MetadataError::MissingSection);
    }
    assert(sv[0] == secs@[0]@ && sv[1] == secs@[1]@);
    let a = section_entries(&secs[0]);
    let s = section_entries(&secs[1]);
    match (a, s) {
        (Some(a), Some(s)) => Ok((a, s)),
        _ => Err(MetadataError::MalformedToken),
    }
}

impl Metadata {
    /// Well-formedness: no two entries of a mapping share a key.
    pub closed spec fn wf(&self) -> bool {
        unique_keys(entries_view(self.attribute@)) && unique_keys(entries_view(self.sub_data@))
    }

    /// The attribute entries, in their order.
    pub closed spec fn attribute_entries(&self) -> Entries {
        entries_view(self.attribute@)
    }

    /// The sub-data entries, in their order.
    pub closed spec fn sub_data_entries(&self) -> Entries {
        entries_view(self.sub_data@)
    }

    /// The attribute mapping.
    pub open spec fn attribute_map(&self) -> Map<Seq<char>, Seq<char>> {
        to_map(self.attribute_entries())
    }

    /// The sub-data mapping.
    pub open spec fn sub_data_map(&self) -> Map<Seq<char>, Seq<char>> {
        to_map(self.sub_data_entries())
    }

    /// The dirty bit.
    pub closed spec fn modified(&self) -> bool {
        self.has_modified
    }

    /// The bytes that the record encodes to.
    pub open spec fn encoded(&self) -> Seq<u8> {
        encode_utf8(metadata_text(self.attribute_entries(), self.sub_data_entries()))
    }

    /// An empty, unmodified record.
    pub fn create() -> (r: Self)
        ensures
            r.wf(),
            r.attribute_map() == Map::<Seq<char>, Seq<char>>::empty(),
            r.sub_data_map() == Map::<Seq<char>, Seq<char>>::empty(),
            r.attribute_entries().len() == 0,
            r.sub_data_entries().len() == 0,
            !r.modified(),
    {
        let r = Metadata { attribute: Vec::new(), sub_data: Vec::new(), has_modified: false };
        assert(r.attribute_entries() =~= Seq::<(Seq<char>, Seq<char>)>::empty());
        assert(r.sub_data_entries() =~= Seq::<(Seq<char>, Seq<char>)>::empty());
        r
    }

    /// The attribute entries; no two share a key.
    pub fn attribute(&self) -> (r: &Vec<(String, String)>)
        requires
            self.wf(),
        ensures
            entries_view(r@) == self.attribute_entries(),
            unique_keys(entries_view(r@)),
    {
        &self.attribute
    }

    /// The sub-data entries; no two share a key.
    pub fn sub_data(&self) -> (r: &Vec<(String, String)>)
        requires
            self.wf(),
        ensures
            entries_view(r@) == self.sub_data_entries(),
            unique_keys(entries_view(r@)),
    {
        &self.sub_data
    }

    /// Whether the record changed since it was last marked saved.
    pub fn has_modified(&self) -> (r: bool)
        ensures
            r == self.modified(),
    {
        self.has_modified
    }

    /// The value of an attribute.
    pub fn get_attribute(&self, key: &str) -> (r: Option<&String>)
        requires
            self.wf(),
        ensures
            match r {
                Some(v) => self.attribute_map().contains_key(key@) && self.attribute_map()[key@] == v@,
                None => !self.attribute_map().contains_key(key@),
            },
    {
        lookup(&self.attribute, key)
    }

    /// The value of a sub-data entry.
    pub fn get_sub_data(&self, key: &str) -> (r: Option<&String>)
        requires
            self.wf(),
        ensures
            match r {
                Some(v) => self.sub_data_map().contains_key(key@) && self.sub_data_map()[key@] == v@,
                None => !self.sub_data_map().contains_key(key@),
            },
    {
        lookup(&self.sub_data, key)
    }

    /// Sets an attribute, replacing any value it had, and marks the record
    /// modified.
    pub fn new_attribute(&mut self, lhs: &str, rhs: &str)
        requires
            old(self).wf(),
        ensures
            final(self).wf(),
            !old(self).attribute_map().contains_key(lhs@) ==> final(self).attribute_entries()
                == old(self).attribute_entries().push((lhs@, rhs@)),
            final(self).sub_data_entries() == old(self).sub_data_entries(),
            final(self).attribute_map() == old(self).attribute_map().insert(lhs@, rhs@),
            final(self).sub_data_map() == old(self).sub_data_map(),
            final(self).modified(),
    {
        let ghost ev = entries_view(self.attribute@);
        proof {
            if !to_map(ev).contains_key(lhs@) {
                assert forall|i: int| 0 <= i < self.attribute@.len() implies (#[trigger] entries_view(
                    self.attribute@,
                )[i]).0 != lhs@ by {
                    if ev[i].0 == lhs@ {
                        lemma_to_map_get(ev, i);
                    }
                }
            }
        }
        upsert(&mut self.attribute, lhs.to_owned(), rhs.to_owned());
        self.has_modified = true;
    }

    /// Sets a sub-data entry unless it is already set, and marks the record
    /// modified.
    pub fn new_sub_data(&mut self, lhs: &str, rhs: &str)
        requires
            old(self).wf(),
        ensures
            final(self).wf(),
            final(self).sub_data_entries() == if old(self).sub_data_map().contains_key(lhs@) {
                old(self).sub_data_entries()
            } else {
                old(self).sub_data_entries().push((lhs@, rhs@))
            },
            final(self).attribute_entries() == old(self).attribute_entries(),
            final(self).sub_data_map() == if old(self).sub_data_map().contains_key(lhs@) {
                old(self).sub_data_map()
            } else {
                old(self).sub_data_map().insert(lhs@, rhs@)
            },
            final(self).attribute_map() == old(self).attribute_map(),
            final(self).modified(),
    {
        insert_absent(&mut self.sub_data, lhs.to_owned(), rhs.to_owned());
        self.has_modified = true;
    }

    /// Removes a sub-data entry, and marks the record modified.
    pub fn delete_sub_data(&mut self, lhs: &str)
        requires
            old(self).wf(),
        ensures
            final(self).wf(),
            final(self).sub_data_map() == old(self).sub_data_map().remove(lhs@),
            final(self).attribute_map() == old(self).attribute_map(),
            final(self).modified(),
    {
        remove_key(&mut self.sub_data, &lhs.to_owned());
        self.has_modified = true;
    }

    /// Marks the record saved.
    pub fn set_not_modified(&mut self)
        ensures
            final(self).wf() == old(self).wf(),
            final(self).attribute_entries() == old(self).attribute_entries(),
            final(self).sub_data_entries() == old(self).sub_data_entries(),
            !final(self).modified(),
    {
        self.has_modified = false;
    }

    /// Empties both mappings, and marks the record modified.
    pub fn clear(&mut self)
        ensures
            final(self).wf(),
            final(self).attribute_map() == Map::<Seq<char>, Seq<char>>::empty(),
            final(self).sub_data_map() == Map::<Seq<char>, Seq<char>>::empty(),
            final(self).modified(),
    {
        self.attribute = Vec::new();
        self.sub_data = Vec::new();
        self.has_modified = true;
        assert(self.attribute_entries() =~= Seq::<(Seq<char>, Seq<char>)>::empty());
        assert(self.sub_data_entries() =~= Seq::<(Seq<char>, Seq<char>)>::empty());
    }

    /// The encoded record.
    pub fn to_vec(&self) -> (r: Vec<u8>)
        ensures
            r@ == self.encoded(),
    {
        let mut text: Vec<char> = Vec::new();
        push_section(&mut text, &self.attribute);
        text.push('$');
        push_section(&mut text, &self.sub_data);
        assert(text@ =~= metadata_text(self.attribute_entries(), self.sub_data_entries()));
        let s = string_of(text.as_slice());
        let mut r: Vec<u8> = Vec::new();
        push_bytes(&mut r, s.as_str().as_bytes());
        assert(r@ =~= self.encoded());
        r
    }

    /// The encoded record, consuming it.
    pub fn into_vec(self) -> (r: Vec<u8>)
        ensures
            r@ == self.encoded(),
    {
        self.to_vec()
    }

    /// Reads encoded entries into the record, each overriding an entry with the
    /// same key, and marks it modified. On error the record is unchanged.
    pub fn import(&mut self, metadata_block: Vec<u8>) -> (r: Result<(), MetadataError>)
        requires
            old(self).wf(),
        ensures
            final(self).wf(),
            match parse_metadata(metadata_block@) {
                Ok((a, s)) => r is Ok && final(self).attribute_map() == insert_all(
                    old(self).attribute_map(),
                    a,
                ) && final(self).sub_data_map() == insert_all(old(self).sub_data_map(), s)
                    && final(self).modified(),
                Err(e) => r == Err::<(), MetadataError>(e) && *final(self) == *old(self),
            },
    {
        let (a, s) = match parse_sections(metadata_block) {
            Err(e) => {
                return Err(e);
            },
            Ok(p) => p,
        };
        let ghost av = entries_view(a@);
        let ghost sv = entries_view(s@);
        let ghost am = self.attribute_map();
        let ghost sm = self.sub_data_map();
        let mut i: usize = 0;
        while i < a.len()
            invariant
                i <= a@.len(),
                av == entries_view(a@),
                unique_keys(entries_view(self.attribute@)),
                unique_keys(entries_view(self.sub_data@)),
                self.sub_data_map() == sm,
                to_map(entries_view(self.attribute@)) == insert_all(am, av.take(i as int)),
            decreases a@.len() - i,
        {
            assert(av.take(i + 1).drop_last() =~= av.take(i as int));
            assert(av[i as int] == (a@[i as int].0@, a@[i as int].1@));
            upsert(&mut self.attribute, a[i].0.clone(), a[i].1.clone());
            i += 1;
        }
        assert(av.take(i as int) =~= av);
        let mut j: usize = 0;
        while j < s.len()
            invariant
                j <= s@.len(),
                sv == entries_view(s@),
                unique_keys(entries_view(self.sub_data@)),
                unique_keys(entries_view(self.attribute@)),
                self.attribute_map() == insert_all(am, av),
                to_map(entries_view(self.sub_data@)) == insert_all(sm, sv.take(j as int)),
            decreases s@.len() - j,
        {
            assert(sv.take(j + 1).drop_last() =~= sv.take(j as int));
            assert(sv[j as int] == (s@[j as int].0@, s@[j as int].1@));
            upsert(&mut self.sub_data, s[j].0.clone(), s[j].1.clone());
            j += 1;
        }
        assert(sv.take(j as int) =~= sv);
        self.has_modified = true;
        Ok(())
    }

    /// A record read from its encoding; it counts as modified.
    pub fn from_vec(metadata_block: Vec<u8>) -> (r: Result<Self, MetadataError>)
        ensures
            match parse_metadata(metadata_block@) {
                Ok((a, s)) => r is Ok && r->Ok_0.wf() && r->Ok_0.attribute_map() == to_map(a)
                    && r->Ok_0.sub_data_map() == to_map(s) && r->Ok_0.modified(),
                Err(e) => r == Err::<Self, MetadataError>(e),
            },
    {
        let mut result = Self::create();
        match result.import(metadata_block) {
            Ok(()) => Ok(result),
            Err(e) => Err(e),
        }
    }
}

/// Whether `s` holds no `c`.
pub open spec fn lacks(s: Seq<char>, c: char) -> bool {
    forall|i: int| 0 <= i < s.len() ==> s[i] != c
}

/// Whether every key and value of the entries is plain text.
pub open spec fn plain_entries(es: Entries) -> bool {
    forall|i: int| 0 <= i < es.len() ==> plain_text((#[trigger] es[i]).0) && plain_text(es[i].1)
}

/// The piece of section text that an entry gives, before its `;`.
pub open spec fn entry_piece(e: (Seq<char>, Seq<char>)) -> Seq<char> {
    e.0 + seq!['='] + e.1
}

proof fn lemma_split_plain(s: Seq<char>, sep: char)
    requires
        lacks(s, sep),
    ensures
        split(s, sep) == seq![s],
    decreases s.len(),
{
    if s.len() > 0 {
        lemma_split_plain(s.drop_last(), sep);
        assert(s.drop_last().push(s.last()) =~= s);
        assert(seq![s.drop_last()].update(0, s.drop_last().push(s.last())) =~= seq![s]);
    } else {
        assert(s =~= Seq::<char>::empty());
    }
}

proof fn lemma_split_nonempty(s: Seq<char>, sep: char)
    ensures
        split(s, sep).len() >= 1,
    decreases s.len(),
{
    if s.len() > 0 {
        lemma_split_nonempty(s.drop_last(), sep);
    }
}

proof fn lemma_split_extend(x: Seq<char>, y: Seq<char>, sep: char)
    requires
        lacks(y, sep),
    ensures
        split(x + y, sep) == split(x, sep).update(
            split(x, sep).len() - 1,
            split(x, sep).last() + y,
        ),
    decreases y.len(),
{
    let p = split(x, sep);
    lemma_split_nonempty(x, sep);
    if y.len() == 0 {
        assert(x + y =~= x);
        assert(p.last() + y =~= p.last());
        assert(p.update(p.len() - 1, p.last()) =~= p);
    } else {
        let y0 = y.drop_last();
        lemma_split_extend(x, y0, sep);
        assert((x + y).drop_last() =~= x + y0);
        assert((x + y).last() == y.last());
        assert(p.last() + y0 + seq![y.last()] =~= p.last() + y);
        assert((p.last() + y0).push(y.last()) =~= p.last() + y);
        let q = p.update(p.len() - 1, p.last() + y0);
        assert(q.update(q.len() - 1, q.last().push(y.last())) =~= p.update(p.len() - 1, p.last() + y));
    }
}

proof fn lemma_split_section(es: Entries)
    requires
        plain_entries(es),
    ensures
        split(section_text(es), ';') == es.map_values(|e: (Seq<char>, Seq<char>)| entry_piece(e)).push(
            seq![],
        ),
        lacks(section_text(es), '$'),
    decreases es.len(),
{
    if es.len() == 0 {
        assert(es.map_values(|e: (Seq<char>, Seq<char>)| entry_piece(e)) =~= Seq::<Seq<char>>::empty());
    } else {
        let init = es.drop_last();
        let e = es.last();
        assert(plain_entries(init)) by {
            assert forall|i: int| 0 <= i < init.len() implies plain_text((#[trigger] init[i]).0)
                && plain_text(init[i].1) by {
                assert(init[i] == es[i]);
            }
        }
        lemma_split_section(init);
        let t0 = section_text(init);
        let piece = entry_piece(e);
        assert(plain_text(es[es.len() - 1].0) && plain_text(es[es.len() - 1].1));
        assert(lacks(piece, ';')) by {
            assert forall|i: int| 0 <= i < piece.len() implies piece[i] != ';' by {
                if i < e.0.len() {
                    assert(piece[i] == e.0[i]);
                } else if i > e.0.len() {
                    assert(piece[i] == e.1[i - e.0.len() - 1]);
                }
            }
        }
        lemma_split_extend(t0, piece, ';');
        let pm0 = init.map_values(|e: (Seq<char>, Seq<char>)| entry_piece(e));
        assert(t0 + piece + seq![';'] =~= section_text(es));
        assert(pm0.push(seq![]).update(pm0.len() as int, Seq::<char>::empty() + piece) =~= pm0.push(piece));
        assert((t0 + piece).push(';') =~= section_text(es));
        assert((t0 + piece).push(';').drop_last() =~= t0 + piece);
        assert(es.map_values(|e: (Seq<char>, Seq<char>)| entry_piece(e)) =~= pm0.push(piece));
        let st = section_text(es);
        assert forall|i: int| 0 <= i < st.len() implies st[i] != '$' by {
            if i < t0.len() {
                assert(st[i] == t0[i]);
            } else if i < t0.len() + e.0.len() {
                assert(st[i] == e.0[i - t0.len()]);
            } else if i > t0.len() + e.0.len() && i < t0.len() + e.0.len() + 1 + e.1.len() {
                assert(st[i] == e.1[i - t0.len() - e.0.len() - 1]);
            }
        }
    }
}

proof fn lemma_tokens_pieces(es: Entries)
    requires
        plain_entries(es),
    ensures
        tokens(es.map_values(|e: (Seq<char>, Seq<char>)| entry_piece(e))) == Some(es),
    decreases es.len(),
{
    let pm = es.map_values(|e: (Seq<char>, Seq<char>)| entry_piece(e));
    if es.len() == 0 {
        assert(es =~= Seq::<(Seq<char>, Seq<char>)>::empty());
    } else {
        let init = es.drop_last();
        let e = es.last();
        assert(plain_entries(init)) by {
            assert forall|i: int| 0 <= i < init.len() implies plain_text((#[trigger] init[i]).0)
                && plain_text(init[i].1) by {
                assert(init[i] == es[i]);
            }
        }
        lemma_tokens_pieces(init);
        assert(pm.drop_last() =~= init.map_values(|e: (Seq<char>, Seq<char>)| entry_piece(e)));
        assert(plain_text(es[es.len() - 1].0) && plain_text(es[es.len() - 1].1));
        let piece = entry_piece(e);
        assert(pm.last() == piece);
        lemma_split_plain(e.0, '=');
        assert(e.0.push('=').drop_last() =~= e.0);
        assert(split(e.0.push('='), '=') =~= seq![e.0, Seq::<char>::empty()]);
        lemma_split_extend(e.0.push('='), e.1, '=');
        assert(e.0.push('=') + e.1 =~= piece);
        let kv = split(piece, '=');
        assert(kv =~= seq![e.0, e.1]);
        assert(piece.len() > 0);
        assert(init.push((kv[0], kv[1])) =~= es);
    }
}

#[verifier::rlimit(50)]
proof fn lemma_parse_text(a: Entries, s: Entries)
    requires
        plain_entries(a),
        plain_entries(s),
    ensures
        parse_metadata(encode_utf8(metadata_text(a, s))) == Ok::<(Entries, Entries), MetadataError>(
            (a, s),
        ),
{
    let t = metadata_text(a, s);
    encode_utf8_valid_utf8(t);
    encode_utf8_decode_utf8(t);
    let b = encode_utf8(t);
    assert(valid_utf8(b) && decode_utf8(b) == t);
    lemma_split_section(a);
    lemma_split_section(s);
    let ta = section_text(a);
    let ts = section_text(s);
    lemma_split_plain(ta, '$');
    assert(ta.push('$').drop_last() =~= ta);
    assert(split(ta.push('$'), '$') =~= seq![ta, Seq::<char>::empty()]);
    lemma_split_extend(ta.push('$'), ts, '$');
    assert(ta.push('$') + ts =~= t);
    assert(split(t, '$') =~= seq![ta, ts]);
    let pa = a.map_values(|e: (Seq<char>, Seq<char>)| entry_piece(e));
    let ps = s.map_values(|e: (Seq<char>, Seq<char>)| entry_piece(e));
    lemma_tokens_pieces(a);
    lemma_tokens_pieces(s);
    assert(pa.push(seq![]).drop_last() =~= pa);
    assert(ps.push(seq![]).drop_last() =~= ps);
}

/// Encoding a record and decoding the bytes gives back both of its mappings,
/// for any record whose keys and values hold no `;`, `=` or `$`.
pub proof fn lemma_metadata_round_trip(m: Metadata)
    requires
        plain_entries(m.attribute_entries()),
        plain_entries(m.sub_data_entries()),
    ensures
        match parse_metadata(m.encoded()) {
            Ok((a, s)) => to_map(a) == m.attribute_map() && to_map(s) == m.sub_data_map(),
            Err(_) => false,
        },
{
    lemma_parse_text(m.attribute_entries(), m.sub_data_entries());
}

} // verus!

use vstd::prelude::*;

use crate::text::{
    all_free_of, chars_of, decimal, free_of, is_digit, is_whitespace, join_with, lemma_decimal_free_of,
    lemma_join_free_of, lemma_parse_decimal, lemma_split_join, parse_u8, parse_unsigned, push_char,
    push_decimal, split_chars, split_on, string_of, trim, trim_chars, trim_end, trim_start,
};

verus! {

/// The character views of a sequence of strings.
pub open spec fn strings_view(v: Seq<String>) -> Seq<Seq<char>> {
    v.map_values(|s: String| s@)
}

/// The character views of a sequence of string slices.
pub open spec fn strs_view(v: Seq<&str>) -> Seq<Seq<char>> {
    v.map_values(|s: &str| s@)
}

/// The text of a key: the decimal value of each byte, joined by `-`.
pub open spec fn key_text(key: Seq<u8>) -> Seq<char> {
    join_with(key.map_values(|b: u8| decimal(b as nat)), '-')
}

/// The key that a text stands for: exactly 32 pieces between `-`, each one a `u8`
/// as `u8::from_str` reads it.
pub open spec fn parse_key(s: Seq<char>) -> Option<Seq<u8>> {
    let parts = split_on(s, '-');
    if parts.len() == 32 && forall|i: int|
        0 <= i < 32 ==> #[trigger] parse_unsigned(parts[i], 255) is Some {
        Some(Seq::new(32, |i: int| parse_unsigned(parts[i], 255)->0 as u8))
    } else {
        None
    }
}

/// The tags followed each by one space.
pub open spec fn spaced(tags: Seq<Seq<char>>) -> Seq<char>
    decreases tags.len(),
{
    if tags.len() == 0 {
        Seq::<char>::empty()
    } else {
        spaced(tags.drop_last()) + tags.last() + seq![' ']
    }
}

/// The text of a tag list: each tag followed by a space, the whole trimmed.
pub open spec fn tag_text(tags: Seq<Seq<char>>) -> Seq<char> {
    trim(spaced(tags))
}

/// Converts key bytes into a command string
///
/// Opposite to `string_to_key()`
pub fn key_to_string(key: &[u8]) -> (res: String)
    requires
        key@.len() > 0,
    ensures
        res@ == key_text(key@),
{
    let ghost parts = key@.map_values(|b: u8| decimal(b as nat));
    let mut res = String::new();
    push_decimal(&mut res, key[0] as u64);
    assert(key@.map_values(|b: u8| decimal(b as nat)).take(1) == seq![parts[0]]);
    let mut i: usize = 1;
    while i < key.len()
        invariant
            1 <= i <= key@.len(),
            parts == key@.map_values(|b: u8| decimal(b as nat)),
            res@ == join_with(parts.take(i as int), '-'),
        decreases key@.len() - i,
    {
        push_char(&mut res, '-');
        push_decimal(&mut res, key[i] as u64);
        assert(parts.take(i + 1).drop_last() == parts.take(i as int));
        assert(parts.take(i + 1).last() == parts[i as int]);
        i = i + 1;
    }
    assert(parts.take(key@.len() as int) == parts);
    res
}

/// Converts a command string into key bytes
///
/// Opposite to `key_to_string()`
pub fn string_to_key(key_str: &str) -> (res: Result<[u8; 32], ()>)
    ensures
        match res {
            Ok(k) => parse_key(key_str@) == Some(k@),
            Err(_) => parse_key(key_str@) is None,
        },
{
    let chars = chars_of(key_str);
    key_from_chars(chars.as_slice())
}

/// `string_to_key` on the characters of a text.
pub fn key_from_chars(chars: &[char]) -> (res: Result<[u8; 32], ()>)
    ensures
        match res {
            Ok(k) => parse_key(chars@) == Some(k@),
            Err(_) => parse_key(chars@) is None,
        },
{
    let key_sections = split_chars(chars, '-');
    let ghost parts = split_on(chars@, '-');
    assert(key_sections@.map_values(|p: Vec<char>| p@) == parts);
    if key_sections.len() != 32 {
        return Err(());
    }
    let mut sbox: [u8; 32] = [0; 32];
    let mut index: usize = 0;
    while index < 32
        invariant
            index <= 32,
            key_sections@.len() == 32,
            parts == split_on(chars@, '-'),
            key_sections@.map_values(|p: Vec<char>| p@) == parts,
            forall|j: int|
                0 <= j < index ==> #[trigger] parse_unsigned(parts[j], 255) == Some(
                    sbox@[j] as nat,
                ),
        decreases 32 - index,
    {
        assert(key_sections@[index as int]@ == parts[index as int]);
        let u = parse_u8(key_sections[index].as_slice());
        match u {
            Some(intbyte) => {
                sbox[index] = intbyte;
            },
            None => {
                assert(!(parse_unsigned(parts[index as int], 255) is Some));
                return Err(());
            },
        }
        index = index + 1;
    }
    assert(parse_key(chars@) == Some(sbox@));
    Ok(sbox)
}

/// Converts a vector of tags into a command string
pub fn tag_to_string(tags: Vec<String>) -> (res: String)
    ensures
        res@ == tag_text(strings_view(tags@)),
{
    let ghost tv = strings_view(tags@);
    let mut rettable: Vec<char> = Vec::new();
    let mut i: usize = 0;
    while i < tags.len()
        invariant
            i <= tags@.len(),
            tv == strings_view(tags@),
            rettable@ == spaced(tv.take(i as int)),
        decreases tags@.len() - i,
    {
        let tag = chars_of(tags[i].as_str());
        let mut k: usize = 0;
        let ghost start = rettable@;
        while k < tag.len()
            invariant
                k <= tag@.len(),
                rettable@ == start + tag@.take(k as int),
            decreases tag@.len() - k,
        {
            rettable.push(tag[k]);
            k = k + 1;
            assert(tag@.take(k as int) == tag@.take(k - 1).push(tag@[k - 1]));
        }
        rettable.push(' ');
        assert(tag@.take(tag@.len() as int) == tag@);
        assert(tv.take(i + 1).drop_last() == tv.take(i as int));
        assert(tv.take(i + 1).last() == tv[i as int]);
        i = i + 1;
    }
    assert(tv.take(tags@.len() as int) == tv);
    let trimmed = trim_chars(rettable.as_slice());
    string_of(trimmed.as_slice())
}

/// Turns each string slice into an owned string.
pub fn upgrade_vec(vector: Vec<&str>) -> (res: Vec<String>)
    ensures
        strings_view(res@) == strs_view(vector@),
{
    let mut rettable: Vec<String> = Vec::new();
    let mut i: usize = 0;
    while i < vector.len()
        invariant
            i <= vector@.len(),
            strings_view(rettable@) == strs_view(vector@).take(i as int),
        decreases vector@.len() - i,
    {
        let item = String::from_str(vector[i]);
        let ghost before = rettable@;
        rettable.push(item);
        assert(rettable@ == before.push(item));
        assert(strings_view(before.push(item)) =~= strings_view(before).push(item@));
        assert(strs_view(vector@).take(i + 1) =~= strs_view(vector@).take(i as int).push(
            vector@[i as int]@,
        ));
        i = i + 1;
    }
    assert(strs_view(vector@).take(vector@.len() as int) == strs_view(vector@));
    rettable
}


/// The text of a key holds no character other than digits and `-`.
pub proof fn lemma_key_text_free_of(key: Seq<u8>, c: char)
    requires
        !is_digit(c),
        c != '-',
    ensures
        free_of(key_text(key), c),
{
    let parts = key.map_values(|b: u8| decimal(b as nat));
    assert forall|i: int| 0 <= i < parts.len() implies free_of(#[trigger] parts[i], c) by {
        lemma_decimal_free_of(key[i] as nat, c);
    }
    lemma_join_free_of(parts, '-', c);
}

/// Reading back the text of a 32-byte key gives the key (`string_to_key` undoes `key_to_string`).
pub proof fn lemma_key_roundtrip(key: Seq<u8>)
    requires
        key.len() == 32,
    ensures
        parse_key(key_text(key)) == Some(key),
{
    let parts = key.map_values(|b: u8| decimal(b as nat));
    assert forall|i: int| 0 <= i < parts.len() implies free_of(#[trigger] parts[i], '-') by {
        lemma_decimal_free_of(key[i] as nat, '-');
    }
    lemma_split_join(parts, '-');
    assert(split_on(key_text(key), '-') == parts);
    assert forall|i: int| 0 <= i < 32 implies #[trigger] parse_unsigned(parts[i], 255) == Some(
        key[i] as nat,
    ) by {
        lemma_parse_decimal(key[i] as nat, 255);
    }
    assert(Seq::new(32, |i: int| parse_unsigned(parts[i], 255)->0 as u8) =~= key);
}

/// Whether a tag list reads back unchanged from its text: at least one tag, no tag holding a
/// space, and the tags joined by spaces neither starting nor ending with white space (which the
/// text's trimming would drop).
pub open spec fn plain_tags(tags: Seq<Seq<char>>) -> bool {
    let joined = join_with(tags, ' ');
    &&& tags.len() >= 1
    &&& all_free_of(tags, ' ')
    &&& joined.len() > 0 ==> !is_whitespace(joined[0]) && !is_whitespace(joined.last())
}

proof fn lemma_spaced_join(tags: Seq<Seq<char>>)
    requires
        tags.len() >= 1,
    ensures
        spaced(tags) == join_with(tags, ' ').push(' '),
    decreases tags.len(),
{
    if tags.len() == 1 {
        assert(spaced(tags.drop_last()) == Seq::<char>::empty());
        assert(Seq::<char>::empty() + tags.last() + seq![' '] == tags[0].push(' '));
    } else {
        lemma_spaced_join(tags.drop_last());
    }
}

/// The text of a plain tag list is the tags joined by single spaces,
/// so splitting it at spaces gives the tags back.
pub proof fn lemma_tag_roundtrip(tags: Seq<Seq<char>>)
    requires
        plain_tags(tags),
    ensures
        tag_text(tags) == join_with(tags, ' '),
        split_on(tag_text(tags), ' ') == tags,
{
    lemma_spaced_join(tags);
    let j = join_with(tags, ' ');
    if j.len() == 0 {
        let sp = j.push(' ');
        assert(sp.len() == 1 && is_whitespace(sp[0]));
        assert(sp.drop_first() =~= Seq::<char>::empty());
        assert(trim_start(Seq::<char>::empty()) == Seq::<char>::empty());
        assert(trim_start(sp) == trim_start(sp.drop_first()));
        assert(trim_end(Seq::<char>::empty()) == Seq::<char>::empty());
    } else {
        assert(j.push(' ')[0] == j[0]);
        assert(trim_start(j.push(' ')) == j.push(' '));
        assert(j.push(' ').drop_last() == j);
        assert(trim_end(j) == j);
    }
    lemma_split_join(tags, ' ');
}

} // verus!

//! Keys as file names.
//!
//! File-per-key tiers hex-encode keys into file names, which sidesteps path
//! traversal and case-insensitive-filesystem hazards. Anything in the directory
//! whose name does not decode to a key is not theirs.

use vstd::prelude::*;
use vstd::string::StringExecFns;

use crate::tier::Page;

verus! {

/// The lowercase hexadecimal digit of value `v`.
pub open spec fn digit(v: int) -> char {
    if v < 10 {
        ('0' as u32 + v) as char
    } else {
        ('a' as u32 + (v - 10)) as char
    }
}

/// `bytes` in lowercase hexadecimal, two digits per byte.
pub open spec fn hex_text(bytes: Seq<u8>) -> Seq<char> {
    Seq::new(
        2 * bytes.len(),
        |i: int|
            digit(
                if i % 2 == 0 {
                    bytes[i / 2] as int / 16
                } else {
                    bytes[i / 2] as int % 16
                },
            ),
    )
}

/// The value of a hexadecimal digit, in either case.
pub open spec fn hex_value(byte: u8) -> Option<u8> {
    if 48 <= byte <= 57 {
        Some((byte - 48) as u8)
    } else if 97 <= byte <= 102 {
        Some((byte - 87) as u8)
    } else if 65 <= byte <= 70 {
        Some((byte - 55) as u8)
    } else {
        None
    }
}

/// The byte that two characters of a name stand for. A plus sign in front of a
/// single digit is allowed, as in every unsigned numeral.
pub open spec fn pair_value(high: u8, low: u8) -> Option<u8> {
    if high == 43 {
        hex_value(low)
    } else {
        match (hex_value(high), hex_value(low)) {
            (Some(h), Some(l)) => Some((16 * h + l) as u8),
            _ => None,
        }
    }
}

/// The bytes that a name stands for, if every pair of its characters does.
pub open spec fn hex_bytes(name: Seq<u8>) -> Option<Seq<u8>> {
    if name.len() % 2 == 0 && forall|i: int|
        0 <= i < name.len() / 2 ==> #[trigger] pair_value(name[2 * i], name[2 * i + 1]) is Some {
        Some(
            Seq::new(name.len() / 2, |i: int| pair_value(name[2 * i], name[2 * i + 1])->0),
        )
    } else {
        None
    }
}

/// The key that a file name stands for.
pub open spec fn key_named(name: Seq<char>) -> Option<Seq<char>> {
    match hex_bytes(vstd::utf8::encode_utf8(name)) {
        Some(bytes) => if vstd::utf8::valid_utf8(bytes) {
            Some(vstd::utf8::decode_utf8(bytes))
        } else {
            None
        },
        None => None,
    }
}

/// The file name of a key.
pub open spec fn name_of(key: Seq<char>) -> Seq<char> {
    hex_text(vstd::utf8::encode_utf8(key))
}

fn digit_text(d: u8) -> (text: &'static str)
    requires
        d < 16,
    ensures
        text@ == seq![digit(d as int)],
{
    proof {
        reveal_strlit("0");
        reveal_strlit("1");
        reveal_strlit("2");
        reveal_strlit("3");
        reveal_strlit("4");
        reveal_strlit("5");
        reveal_strlit("6");
        reveal_strlit("7");
        reveal_strlit("8");
        reveal_strlit("9");
        reveal_strlit("a");
        reveal_strlit("b");
        reveal_strlit("c");
        reveal_strlit("d");
        reveal_strlit("e");
        reveal_strlit("f");
    }
    let text: &'static str = match d {
        0 => "0",
        1 => "1",
        2 => "2",
        3 => "3",
        4 => "4",
        5 => "5",
        6 => "6",
        7 => "7",
        8 => "8",
        9 => "9",
        10 => "a",
        11 => "b",
        12 => "c",
        13 => "d",
        14 => "e",
        _ => "f",
    };
    assert(text@ =~= seq![digit(d as int)]);
    text
}

/// `bytes` in lowercase hexadecimal.
#[must_use]
pub fn hex_encode(bytes: &[u8]) -> (text: String)
    ensures
        text@ == hex_text(bytes@),
{
    let mut text = String::new();
    let mut i: usize = 0;
    assert(text@ =~= hex_text(bytes@.take(0)));
    while i < bytes.len()
        invariant
            i <= bytes@.len(),
            text@ == hex_text(bytes@.take(i as int)),
        decreases bytes@.len() - i,
    {
        let ghost before = text@;
        let byte: u8 = bytes[i];
        text.append(digit_text(byte / 16));
        text.append(digit_text(byte % 16));
        proof {
            let after = hex_text(bytes@.take(i + 1));
            assert(before =~= after.take(2 * i));
            assert(after =~= before + seq![digit(byte as int / 16)] + seq![
                digit(byte as int % 16),
            ]);
        }
        i += 1;
    }
    assert(bytes@.take(i as int) =~= bytes@);
    text
}

fn value_of(byte: u8) -> (value: Option<u8>)
    ensures
        value == hex_value(byte),
{
    if 48 <= byte && byte <= 57 {
        Some(byte - 48)
    } else if 97 <= byte && byte <= 102 {
        Some(byte - 87)
    } else if 65 <= byte && byte <= 70 {
        Some(byte - 55)
    } else {
        None
    }
}

fn pair_of(high: u8, low: u8) -> (value: Option<u8>)
    ensures
        value == pair_value(high, low),
{
    if high == 43 {
        value_of(low)
    } else {
        match (value_of(high), value_of(low)) {
            (Some(h), Some(l)) => Some(16 * h + l),
            _ => None,
        }
    }
}

/// The bytes that `name` stands for, if it is hexadecimal.
#[must_use]
pub fn hex_decode(name: &str) -> (bytes: Option<Vec<u8>>)
    ensures
        match bytes {
            Some(bytes) => hex_bytes(vstd::utf8::encode_utf8(name@)) == Some(bytes@),
            None => hex_bytes(vstd::utf8::encode_utf8(name@)) is None,
        },
{
    let text = name.as_bytes();
    if text.len() % 2 != 0 {
        return None;
    }
    let mut bytes: Vec<u8> = Vec::with_capacity(text.len() / 2);
    let mut i: usize = 0;
    while i < text.len() / 2
        invariant
            text@ == vstd::utf8::encode_utf8(name@),
            text@.len() % 2 == 0,
            i <= text@.len() / 2,
            bytes@.len() == i,
            forall|j: int|
                0 <= j < i ==> #[trigger] pair_value(text@[2 * j], text@[2 * j + 1]) == Some(
                    bytes@[j],
                ),
        decreases text@.len() / 2 - i,
    {
        match pair_of(text[2 * i], text[2 * i + 1]) {
            Some(byte) => {
                bytes.push(byte);
            },
            None => {
                assert(pair_value(text@[2 * (i as int)], text@[2 * (i as int) + 1]) is None);
                return None;
            },
        }
        i += 1;
    }
    assert(forall|j: int|
        0 <= j < text@.len() / 2 ==> #[trigger] pair_value(text@[2 * j], text@[2 * j + 1]) is Some);
    assert(hex_bytes(text@)->0 =~= bytes@);
    Some(bytes)
}

/// [`String::from_utf8`] is taken to accept exactly the valid UTF-8 encodings
/// and to return the text that they encode.
#[verifier::external_body]
pub(crate) fn text_of(bytes: Vec<u8>) -> (text: Option<String>)
    ensures
        text is Some <==> vstd::utf8::valid_utf8(bytes@),
        text matches Some(text) ==> text@ == vstd::utf8::decode_utf8(bytes@),
{
    String::from_utf8(bytes).ok()
}

/// The file name of `key`.
#[must_use]
pub fn file_name(key: &String) -> (name: String)
    ensures
        name@ == name_of(key@),
{
    hex_encode(key.as_str().as_bytes())
}

/// The key that a file name stands for, if any.
#[must_use]
pub fn key_of(name: &String) -> (key: Option<String>)
    ensures
        match key {
            Some(key) => key_named(name@) == Some(key@),
            None => key_named(name@) is None,
        },
{
    match hex_decode(name.as_str()) {
        Some(bytes) => text_of(bytes),
        None => None,
    }
}

proof fn lemma_digit(v: int)
    requires
        0 <= v < 16,
    ensures
        '\0' <= digit(v) <= '\u{7f}',
        hex_value(digit(v) as u8) == Some(v as u8),
        digit(v) as u8 != 43,
{
}

/// Hexadecimal encoding loses nothing.
pub proof fn law_hex_round_trips(bytes: Seq<u8>)
    ensures
        hex_bytes(vstd::utf8::encode_utf8(hex_text(bytes))) == Some(bytes),
{
    let text = hex_text(bytes);
    assert forall|i: int| 0 <= i < text.len() implies '\0' <= #[trigger] text[i] <= '\u{7f}' by {
        lemma_digit(
            if i % 2 == 0 {
                bytes[i / 2] as int / 16
            } else {
                bytes[i / 2] as int % 16
            },
        );
    }
    assert(vstd::utf8::is_ascii_chars(text));
    vstd::utf8::is_ascii_chars_encode_utf8(text);
    let name = vstd::utf8::encode_utf8(text);
    assert forall|i: int| 0 <= i < bytes.len() implies #[trigger] pair_value(
        name[2 * i],
        name[2 * i + 1],
    ) == Some(bytes[i]) by {
        lemma_digit(bytes[i] as int / 16);
        lemma_digit(bytes[i] as int % 16);
        assert(text[2 * i] == digit(bytes[i] as int / 16));
        assert(text[2 * i + 1] == digit(bytes[i] as int % 16));
        assert(name[2 * i] == text[2 * i] as u8);
        assert(name[2 * i + 1] == text[2 * i + 1] as u8);
    }
    assert(hex_bytes(name)->0 =~= bytes);
}

/// Every key is found again under its file name.
pub proof fn law_file_names_stand_for_their_keys(key: Seq<char>)
    ensures
        key_named(name_of(key)) == Some(key),
{
    law_hex_round_trips(vstd::utf8::encode_utf8(key));
    vstd::utf8::encode_utf8_valid_utf8(key);
    vstd::utf8::encode_utf8_decode_utf8(key);
}

/// Different keys have different file names.
pub proof fn law_file_names_are_unique(a: Seq<char>, b: Seq<char>)
    requires
        name_of(a) == name_of(b),
    ensures
        a == b,
{
    law_file_names_stand_for_their_keys(a);
    law_file_names_stand_for_their_keys(b);
}

/// A name with a dot in it, as temporary files have, stands for no key.
pub proof fn law_dotted_names_are_no_keys(name: Seq<u8>, at: int)
    requires
        0 <= at < name.len(),
        name[at] == 46,
    ensures
        hex_bytes(name) is None,
{
    let i = at / 2;
    if name.len() % 2 == 0 {
        assert(pair_value(name[2 * i], name[2 * i + 1]) is None);
    }
}

/// Byte-wise lexicographic order.
pub open spec fn in_order(a: Seq<u8>, b: Seq<u8>) -> bool
    decreases a.len(),
{
    if a.len() == 0 {
        true
    } else if b.len() == 0 {
        false
    } else if a[0] != b[0] {
        a[0] < b[0]
    } else {
        in_order(a.skip(1), b.skip(1))
    }
}

/// The order of keys in a listing: that of their encodings.
pub open spec fn keys_in_order(a: Seq<char>, b: Seq<char>) -> bool {
    in_order(vstd::utf8::encode_utf8(a), vstd::utf8::encode_utf8(b))
}

/// The order of keys in a listing, as a relation.
pub open spec fn listing_order() -> spec_fn(Seq<char>, Seq<char>) -> bool {
    |x: Seq<char>, y: Seq<char>| keys_in_order(x, y)
}

/// Whether `keys` ascend.
pub open spec fn ascending(keys: Seq<Seq<char>>) -> bool {
    forall|i: int, j: int|
        0 <= i <= j < keys.len() ==> keys_in_order(#[trigger] keys[i], #[trigger] keys[j])
}

proof fn lemma_order_total(a: Seq<u8>, b: Seq<u8>)
    ensures
        in_order(a, b) || in_order(b, a),
    decreases a.len(),
{
    if a.len() > 0 && b.len() > 0 && a[0] == b[0] {
        lemma_order_total(a.skip(1), b.skip(1));
    }
}

proof fn lemma_order_transitive(a: Seq<u8>, b: Seq<u8>, c: Seq<u8>)
    requires
        in_order(a, b),
        in_order(b, c),
    ensures
        in_order(a, c),
    decreases a.len(),
{
    if a.len() > 0 && b.len() > 0 && c.len() > 0 && a[0] == b[0] && b[0] == c[0] {
        lemma_order_transitive(a.skip(1), b.skip(1), c.skip(1));
    }
}

fn not_after(a: &String, b: &String) -> (ordered: bool)
    ensures
        ordered == keys_in_order(a@, b@),
{
    let x = a.as_str().as_bytes();
    let y = b.as_str().as_bytes();
    let mut i: usize = 0;
    assert(x@.skip(0) =~= x@);
    assert(y@.skip(0) =~= y@);
    while i < x.len() && i < y.len()
        invariant
            i <= x@.len(),
            i <= y@.len(),
            x@ == vstd::utf8::encode_utf8(a@),
            y@ == vstd::utf8::encode_utf8(b@),
            in_order(x@, y@) == in_order(x@.skip(i as int), y@.skip(i as int)),
        decreases x@.len() - i,
    {
        let ghost u = x@.skip(i as int);
        let ghost v = y@.skip(i as int);
        assert(u[0] == x@[i as int] && v[0] == y@[i as int]);
        if x[i] != y[i] {
            return x[i] < y[i];
        }
        assert(u.skip(1) =~= x@.skip(i + 1));
        assert(v.skip(1) =~= y@.skip(i + 1));
        i += 1;
    }
    i == x.len()
}

/// The texts of `keys`.
pub open spec fn texts(keys: Seq<String>) -> Seq<Seq<char>> {
    keys.map_values(|key: String| key@)
}

/// The keys that `names` stand for, in order; other names are passed over.
pub open spec fn keys_named(names: Seq<String>) -> Seq<Seq<char>>
    decreases names.len(),
{
    if names.len() == 0 {
        Seq::empty()
    } else {
        match key_named(names.last()@) {
            Some(key) => keys_named(names.drop_last()).push(key),
            None => keys_named(names.drop_last()),
        }
    }
}

/// Puts `key` where it belongs among ascending `keys`.
fn sort_in(keys: &mut Vec<String>, key: String)
    requires
        ascending(texts(old(keys)@)),
    ensures
        ascending(texts(final(keys)@)),
        texts(final(keys)@).to_multiset() == texts(old(keys)@).to_multiset().insert(key@),
        final(keys)@.len() == old(keys)@.len() + 1,
{
    let ghost before = texts(keys@);
    let ghost text = key@;
    let mut at: usize = 0;
    while at < keys.len() && not_after(&keys[at], &key)
        invariant
            keys@ == old(keys)@,
            before == texts(keys@),
            text == key@,
            at <= keys@.len(),
            forall|i: int| 0 <= i < at ==> keys_in_order(#[trigger] before[i], text),
        decreases keys@.len() - at,
    {
        at += 1;
    }
    proof {
        assert forall|i: int| at <= i < before.len() implies keys_in_order(
            text,
            #[trigger] before[i],
        ) by {
            let bound = before[at as int];
            lemma_order_total(
                vstd::utf8::encode_utf8(bound),
                vstd::utf8::encode_utf8(text),
            );
            assert(keys_in_order(bound, before[i]));
            lemma_order_transitive(
                vstd::utf8::encode_utf8(text),
                vstd::utf8::encode_utf8(bound),
                vstd::utf8::encode_utf8(before[i]),
            );
        }
    }
    keys.insert(at, key);
    proof {
        let after = texts(keys@);
        assert(after =~= before.insert(at as int, text));
        assert(after.remove(at as int) =~= before);
        vstd::seq_lib::to_multiset_remove(after, at as int);
        after.to_multiset_ensures();
        assert(after[at as int] == text);
        assert(after.contains(text));
        assert(after.to_multiset() =~= before.to_multiset().insert(text));
        lemma_order_total(vstd::utf8::encode_utf8(text), vstd::utf8::encode_utf8(text));
        assert forall|i: int, j: int| 0 <= i <= j < after.len() implies keys_in_order(
            #[trigger] after[i],
            #[trigger] after[j],
        ) by {
            let x = if i < at {
                i
            } else {
                i - 1
            };
            let y = if j < at {
                j
            } else {
                j - 1
            };
            if i != at && j != at {
                assert(after[i] == before[x] && after[j] == before[y]);
            } else if i == at && j != at {
                assert(after[j] == before[y]);
            } else if i != at && j == at {
                assert(after[i] == before[x]);
            }
        }
    }
}

/// The keys that `names` stand for, in listing order.
pub open spec fn listing(names: Seq<String>) -> Seq<Seq<char>> {
    keys_named(names).sort_by(listing_order())
}

/// The smaller of two numbers.
pub open spec fn least(a: int, b: int) -> int {
    if a < b {
        a
    } else {
        b
    }
}

/// Up to `limit` of the keys `all` from `offset` on.
pub open spec fn shown_from(all: Seq<Seq<char>>, offset: nat, limit: nat) -> Seq<Seq<char>> {
    let from = least(offset as int, all.len() as int);
    all.subrange(from, least(from + limit, all.len() as int))
}

/// Where to go on after that, if keys are left and `limit` asks for any.
pub open spec fn next_after(all: Seq<Seq<char>>, offset: nat, limit: nat) -> Option<nat> {
    let end = offset + shown_from(all, offset, limit).len();
    if limit > 0 && end < all.len() {
        Some(end)
    } else {
        None
    }
}

/// Whether `page` shows the keys `all` from `offset` on, and says where to go
/// on.
pub open spec fn page_of(
    all: Seq<Seq<char>>,
    offset: usize,
    limit: usize,
    page: Page<String, usize>,
) -> bool {
    &&& texts(page.keys@) == shown_from(all, offset as nat, limit as nat)
    &&& match next_after(all, offset as nat, limit as nat) {
        Some(next) => page.next matches Some(cursor) && cursor == next,
        None => page.next is None,
    }
}

/// The keys on all pages of `limit` keys from `offset` on, following each page
/// to the next.
pub open spec fn walked(all: Seq<Seq<char>>, offset: nat, limit: nat) -> Seq<Seq<char>>
    decreases all.len() - offset,
{
    let keys = shown_from(all, offset, limit);
    match next_after(all, offset, limit) {
        Some(next) => if next > offset {
            keys + walked(all, next, limit)
        } else {
            keys
        },
        None => keys,
    }
}

/// The offset that a cursor stands for.
pub open spec fn offset_of(cursor: Option<usize>) -> usize {
    match cursor {
        Some(offset) => offset,
        None => 0,
    }
}

/// One page of the keys that the file names `names` of a directory stand for.
///
/// Directory order is arbitrary, so the keys are sorted to make paging
/// deterministic.
#[must_use]
pub fn list_page(names: Vec<String>, cursor: Option<usize>, limit: usize) -> (page: Page<
    String,
    usize,
>)
    ensures
        page.keys@.len() <= limit,
        page_of(listing(names@), offset_of(cursor), limit, page),
{
    let mut all: Vec<String> = Vec::new();
    let ghost listed = names@;
    let mut i: usize = 0;
    assert(listed.take(0) =~= Seq::empty());
    assert(texts(all@) =~= Seq::empty());
    while i < names.len()
        invariant
            listed == names@,
            i <= names@.len(),
            ascending(texts(all@)),
            texts(all@).to_multiset() == keys_named(listed.take(i as int)).to_multiset(),
        decreases names@.len() - i,
    {
        let ghost before = keys_named(listed.take(i as int));
        assert(listed.take(i + 1).drop_last() =~= listed.take(i as int));
        if let Some(key) = key_of(&names[i]) {
            proof {
                before.to_multiset_ensures();
                assert(before.push(key@).to_multiset() == before.to_multiset().insert(key@));
            }
            sort_in(&mut all, key);
        }
        i += 1;
    }
    assert(listed.take(i as int) =~= listed);
    let offset: usize = match cursor {
        Some(offset) => offset,
        None => 0,
    };
    let mut keys: Vec<String> = Vec::new();
    let ghost from = least(offset as int, all@.len() as int);
    let mut at: usize = if offset < all.len() {
        offset
    } else {
        all.len()
    };
    assert(texts(keys@) =~= texts(all@).subrange(from, from));
    while at < all.len() && keys.len() < limit
        invariant
            from == least(offset as int, all@.len() as int),
            at == from + keys@.len(),
            at <= all@.len(),
            keys@.len() <= limit,
            texts(keys@) == texts(all@).subrange(from, at as int),
        decreases all@.len() - at,
    {
        let ghost before = texts(keys@);
        keys.push(all[at].clone());
        assert(texts(keys@) =~= before.push(all@[at as int]@));
        assert(texts(all@).subrange(from, at + 1) =~= texts(all@).subrange(from, at as int).push(
            all@[at as int]@,
        ));
        at += 1;
    }
    let end: usize = offset.saturating_add(keys.len());
    let next = if limit > 0 && end < all.len() {
        Some(end)
    } else {
        None
    };
    let page = Page { keys, next };
    assert(page_of(texts(all@), offset, limit, page)) by {
        assert(texts(keys@).len() == keys@.len());
        assert(shown_from(texts(all@), offset as nat, limit as nat) =~= texts(keys@));
    }
    proof {
        law_listings_ascend(listed);
        law_listing_order_is_unique(texts(all@), listing(listed));
    }
    page
}

/// Following the pages from the first one lists every key exactly once, in
/// order, and then ends, however many keys a page shows.
pub proof fn law_walks_list_every_key_once(all: Seq<Seq<char>>, limit: nat)
    requires
        limit > 0,
    ensures
        walked(all, 0, limit) == all,
{
    lemma_walked(all, 0, limit);
    assert(all.skip(0) =~= all);
}

proof fn lemma_walked(all: Seq<Seq<char>>, offset: nat, limit: nat)
    requires
        limit > 0,
        offset <= all.len(),
    ensures
        walked(all, offset, limit) == all.skip(offset as int),
    decreases all.len() - offset,
{
    let keys = shown_from(all, offset, limit);
    match next_after(all, offset, limit) {
        Some(next) => {
            lemma_walked(all, next, limit);
            assert(keys + all.skip(next as int) =~= all.skip(offset as int));
        },
        None => {
            assert(keys =~= all.skip(offset as int));
        },
    }
}

/// A page without room for keys is empty, and ends the listing.
pub proof fn law_zero_limits_show_nothing(all: Seq<Seq<char>>, offset: nat)
    ensures
        shown_from(all, offset, 0).len() == 0,
        next_after(all, offset, 0) is None,
{
}

/// A page says honestly whether more follows, and the next page begins right
/// after it.
pub proof fn law_pages_are_contiguous(
    all: Seq<Seq<char>>,
    offset: usize,
    limit: usize,
    page: Page<String, usize>,
)
    requires
        page_of(all, offset, limit, page),
        all.len() <= usize::MAX,
        limit > 0,
    ensures
        page.next matches Some(next) ==> next == offset + page.keys@.len() && next < all.len(),
        page.next is None ==> offset + page.keys@.len() >= all.len(),
        page.next is Some ==> page.keys@.len() > 0,
{
    assert(texts(page.keys@).len() == page.keys@.len());
    assert(shown_from(all, offset as nat, limit as nat).len() == page.keys@.len());
}

proof fn lemma_order_antisymmetric(a: Seq<u8>, b: Seq<u8>)
    requires
        in_order(a, b),
        in_order(b, a),
    ensures
        a == b,
    decreases a.len(),
{
    if a.len() > 0 && b.len() > 0 {
        lemma_order_antisymmetric(a.skip(1), b.skip(1));
        assert(a =~= seq![a[0]] + a.skip(1));
        assert(b =~= seq![b[0]] + b.skip(1));
    } else {
        assert(a =~= b);
    }
}

proof fn lemma_listing_order()
    ensures
        vstd::relations::total_ordering(listing_order()),
{
    let order = listing_order();
    assert forall|x: Seq<char>| #[trigger] order(x, x) by {
        lemma_order_total(vstd::utf8::encode_utf8(x), vstd::utf8::encode_utf8(x));
    }
    assert forall|x: Seq<char>, y: Seq<char>| #[trigger] order(x, y) || #[trigger] order(y, x) by {
        lemma_order_total(vstd::utf8::encode_utf8(x), vstd::utf8::encode_utf8(y));
    }
    assert forall|x: Seq<char>, y: Seq<char>| #[trigger] order(x, y) && #[trigger] order(
        y,
        x,
    ) implies x == y by {
        lemma_order_antisymmetric(vstd::utf8::encode_utf8(x), vstd::utf8::encode_utf8(y));
        vstd::utf8::encode_utf8_decode_utf8(x);
        vstd::utf8::encode_utf8_decode_utf8(y);
    }
    assert forall|x: Seq<char>, y: Seq<char>, z: Seq<char>| #[trigger] order(x, y)
        && #[trigger] order(y, z) implies order(x, z) by {
        lemma_order_transitive(
            vstd::utf8::encode_utf8(x),
            vstd::utf8::encode_utf8(y),
            vstd::utf8::encode_utf8(z),
        );
    }
}

/// A listing ascends, and holds the key of every name that stands for one.
pub proof fn law_listings_ascend(names: Seq<String>)
    ensures
        ascending(listing(names)),
        listing(names).to_multiset() == keys_named(names).to_multiset(),
{
    let order = listing_order();
    lemma_listing_order();
    keys_named(names).lemma_sort_by_ensures(order);
    let sorted = keys_named(names).sort_by(order);
    assert(vstd::relations::sorted_by(sorted, order));
    assert forall|i: int, j: int| 0 <= i <= j < sorted.len() implies keys_in_order(
        #[trigger] sorted[i],
        #[trigger] sorted[j],
    ) by {
        assert(order(sorted[i], sorted[j]));
    }
}

/// The files of a tier stand for the keys that it stores: under their file
/// names, each key is found once.
pub proof fn law_stored_keys_are_found(names: Seq<String>, keys: Seq<Seq<char>>)
    requires
        names.len() == keys.len(),
        forall|i: int| 0 <= i < names.len() ==> (#[trigger] names[i])@ == name_of(keys[i]),
    ensures
        keys_named(names) == keys,
    decreases names.len(),
{
    if names.len() > 0 {
        let front = names.drop_last();
        assert forall|i: int| 0 <= i < front.len() implies (#[trigger] front[i])@ == name_of(
            keys.drop_last()[i],
        ) by {
            assert(front[i] == names[i]);
        }
        law_stored_keys_are_found(front, keys.drop_last());
        law_file_names_stand_for_their_keys(keys.last());
        assert(names[names.len() - 1]@ == name_of(keys.last()));
        assert(keys.drop_last().push(keys.last()) =~= keys);
    } else {
        assert(keys_named(names) =~= keys);
    }
}

/// Paging is deterministic: there is only one way in which the keys of a
/// directory ascend.
pub proof fn law_listing_order_is_unique(a: Seq<Seq<char>>, b: Seq<Seq<char>>)
    requires
        ascending(a),
        ascending(b),
        a.to_multiset() == b.to_multiset(),
    ensures
        a == b,
{
    let order = listing_order();
    lemma_listing_order();
    assert(vstd::relations::sorted_by(a, order));
    assert(vstd::relations::sorted_by(b, order));
    vstd::seq_lib::lemma_sorted_unique(a, b, order);
}

/// A page shows exactly the keys from the offset on, as many as there are and
/// are asked for; and it says where to go on exactly if keys are asked for and
/// more are there.
pub proof fn law_pages_show_what_is_asked_for(
    all: Seq<Seq<char>>,
    offset: usize,
    limit: usize,
    page: Page<String, usize>,
)
    requires
        page_of(all, offset, limit, page),
    ensures
        page.keys@.len() == if offset >= all.len() {
            0int
        } else if all.len() - offset < limit {
            all.len() - offset
        } else {
            limit as int
        },
        forall|i: int|
            0 <= i < page.keys@.len() ==> (#[trigger] page.keys@[i])@ == all[offset + i],
        match page.next {
            Some(next) => limit > 0 && next == offset + page.keys@.len() && next < all.len(),
            None => limit == 0 || offset + page.keys@.len() >= all.len(),
        },
{
    let shown = shown_from(all, offset as nat, limit as nat);
    assert(texts(page.keys@).len() == page.keys@.len());
    assert forall|i: int| 0 <= i < page.keys@.len() implies (#[trigger] page.keys@[i])@ == all[offset
        + i] by {
        assert(texts(page.keys@)[i] == page.keys@[i]@);
        assert(shown[i] == all[offset + i]);
    }
}

/// Listings are ordered byte by byte: a key stands before another if it is the
/// beginning of it, or if it has the smaller byte where they first differ.
pub proof fn law_listings_are_ordered_byte_by_byte(a: Seq<u8>, b: Seq<u8>)
    ensures
        in_order(a, b) <==> a.is_prefix_of(b) || exists|i: int|
            0 <= i < a.len() && i < b.len() && #[trigger] a[i] < b[i] && a.take(i) == b.take(i),
    decreases a.len(),
{
    if a.len() == 0 {
        assert(a =~= b.take(0));
    } else if b.len() == 0 {
        assert(!a.is_prefix_of(b));
    } else if a[0] != b[0] {
        if a.is_prefix_of(b) {
            assert(a[0] == b.take(a.len() as int)[0]);
        }
        if a[0] < b[0] {
            assert(a.take(0) =~= b.take(0));
        }
        if exists|i: int|
            0 <= i < a.len() && i < b.len() && #[trigger] a[i] < b[i] && a.take(i) == b.take(i) {
            let i = choose|i: int|
                0 <= i < a.len() && i < b.len() && #[trigger] a[i] < b[i] && a.take(i) == b.take(i);
            if i > 0 {
                assert(a.take(i)[0] == b.take(i)[0]);
            }
        }
    } else {
        let x = a.skip(1);
        let y = b.skip(1);
        law_listings_are_ordered_byte_by_byte(x, y);
        if x.is_prefix_of(y) {
            assert(a =~= b.take(a.len() as int)) by {
                assert forall|k: int| 0 < k < a.len() implies a[k] == b[k] by {
                    assert(x[k - 1] == y.take(x.len() as int)[k - 1]);
                }
            }
        }
        if a.is_prefix_of(b) {
            assert(x =~= y.take(x.len() as int)) by {
                assert forall|k: int| 0 <= k < x.len() implies x[k] == y[k] by {
                    assert(a[k + 1] == b.take(a.len() as int)[k + 1]);
                }
            }
        }
        if exists|i: int|
            0 <= i < x.len() && i < y.len() && #[trigger] x[i] < y[i] && x.take(i) == y.take(i) {
            let i = choose|i: int|
                0 <= i < x.len() && i < y.len() && #[trigger] x[i] < y[i] && x.take(i) == y.take(i);
            assert(a[i + 1] < b[i + 1]);
            assert(a.take(i + 1) =~= b.take(i + 1)) by {
                assert forall|k: int| 0 < k < i + 1 implies a[k] == b[k] by {
                    assert(x.take(i)[k - 1] == y.take(i)[k - 1]);
                }
            }
        }
        if exists|i: int|
            0 <= i < a.len() && i < b.len() && #[trigger] a[i] < b[i] && a.take(i) == b.take(i) {
            let i = choose|i: int|
                0 <= i < a.len() && i < b.len() && #[trigger] a[i] < b[i] && a.take(i) == b.take(i);
            assert(x[i - 1] < y[i - 1]);
            assert(x.take(i - 1) =~= y.take(i - 1)) by {
                assert forall|k: int| 0 <= k < i - 1 implies x[k] == y[k] by {
                    assert(a.take(i)[k + 1] == b.take(i)[k + 1]);
                }
            }
        }
    }
}

/// Whether the character code `c` writes the digit of value `v`, in either case.
pub open spec fn writes_digit(c: int, v: int) -> bool {
    ||| 0 <= v < 10 && c == 48 + v
    ||| 10 <= v < 16 && (c == 97 + (v - 10) || c == 65 + (v - 10))
}

/// Every byte is written as two lowercase digits, the high one first.
pub proof fn law_bytes_are_written_as_two_digits(bytes: Seq<u8>, i: int)
    requires
        0 <= i < bytes.len(),
    ensures
        hex_text(bytes).len() == 2 * bytes.len(),
        writes_digit(hex_text(bytes)[2 * i] as int, bytes[i] as int / 16),
        writes_digit(hex_text(bytes)[2 * i + 1] as int, bytes[i] as int % 16),
        hex_text(bytes)[2 * i] as int >= 97 || hex_text(bytes)[2 * i] as int <= 57,
        hex_text(bytes)[2 * i + 1] as int >= 97 || hex_text(bytes)[2 * i + 1] as int <= 57,
{
    let text = hex_text(bytes);
    assert(text[2 * i] == digit(bytes[i] as int / 16));
    assert(text[2 * i + 1] == digit(bytes[i] as int % 16));
}

/// Whether two character codes stand for `byte`: as its two digits, in either
/// case, or as a plus sign and its only one.
pub open spec fn writes_byte(high: u8, low: u8, byte: u8) -> bool {
    ||| writes_digit(high as int, byte as int / 16) && writes_digit(low as int, byte as int % 16)
    ||| high == 43 && writes_digit(low as int, byte as int)
}

/// Whether two character codes stand for no byte at all.
pub open spec fn unreadable(high: u8, low: u8) -> bool {
    forall|byte: u8| !#[trigger] writes_byte(high, low, byte)
}

/// A name is read pair by pair: it stands for bytes exactly if each of its pairs
/// of characters does, and none is left over.
pub proof fn law_names_are_read_pair_by_pair(name: Seq<u8>)
    ensures
        match hex_bytes(name) {
            Some(bytes) => name.len() == 2 * bytes.len() && forall|i: int|
                0 <= i < bytes.len() ==> writes_byte(
                    name[2 * i],
                    name[2 * i + 1],
                    #[trigger] bytes[i],
                ),
            None => name.len() % 2 == 1 || exists|i: int|
                0 <= i < name.len() / 2 && #[trigger] unreadable(name[2 * i], name[2 * i + 1]),
        },
{
    if let Some(bytes) = hex_bytes(name) {
        assert forall|i: int| 0 <= i < bytes.len() implies writes_byte(
            name[2 * i],
            name[2 * i + 1],
            #[trigger] bytes[i],
        ) by {
            assert(pair_value(name[2 * i], name[2 * i + 1]) is Some);
        }
    } else if name.len() % 2 == 0 {
        let i = choose|i: int|
            0 <= i < name.len() / 2 && !(#[trigger] pair_value(name[2 * i], name[2 * i + 1])
                is Some);
        assert(unreadable(name[2 * i], name[2 * i + 1]));
    }
}

/// A name stands for a key exactly if its bytes are those of the key.
pub proof fn law_names_stand_for_the_key_with_their_bytes(name: Seq<char>, key: Seq<char>)
    ensures
        key_named(name) == Some(key) <==> hex_bytes(vstd::utf8::encode_utf8(name)) == Some(
            vstd::utf8::encode_utf8(key),
        ),
{
    if let Some(bytes) = hex_bytes(vstd::utf8::encode_utf8(name)) {
        if vstd::utf8::valid_utf8(bytes) {
            vstd::utf8::decode_utf8_encode_utf8(bytes);
        }
    }
    vstd::utf8::encode_utf8_valid_utf8(key);
    vstd::utf8::encode_utf8_decode_utf8(key);
}

/// The names that stand for no key are passed over, and all others are listed.
pub proof fn law_other_names_are_passed_over(names: Seq<String>)
    ensures
        keys_named(names) == names.filter(|name: String| key_named(name@) is Some).map_values(
            |name: String| key_named(name@)->0,
        ),
    decreases names.len(),
{
    reveal(Seq::filter);
    let known = |name: String| key_named(name@) is Some;
    let key = |name: String| key_named(name@)->0;
    if names.len() > 0 {
        law_other_names_are_passed_over(names.drop_last());
        assert(keys_named(names) =~= names.filter(known).map_values(key));
    } else {
        assert(keys_named(names) =~= names.filter(known).map_values(key));
    }
}

/// A listing is in byte order: of two keys that it lists, the earlier one is the
/// beginning of the later one, or has the smaller byte where they first differ.
pub proof fn law_listings_are_in_byte_order(names: Seq<String>, i: int, j: int)
    requires
        0 <= i < j < listing(names).len(),
    ensures
        ({
            let a = vstd::utf8::encode_utf8(listing(names)[i]);
            let b = vstd::utf8::encode_utf8(listing(names)[j]);
            a.is_prefix_of(b) || exists|k: int|
                0 <= k < a.len() && k < b.len() && #[trigger] a[k] < b[k] && a.take(k) == b.take(k)
        }),
{
    let a = vstd::utf8::encode_utf8(listing(names)[i]);
    let b = vstd::utf8::encode_utf8(listing(names)[j]);
    law_listings_ascend(names);
    assert(keys_in_order(listing(names)[i], listing(names)[j]));
    law_listings_are_ordered_byte_by_byte(a, b);
}

/// Without a cursor a listing starts at the first key, and else where the cursor
/// says.
pub proof fn law_cursors_are_offsets(offset: usize)
    ensures
        offset_of(None) == 0,
        offset_of(Some(offset)) == offset,
{
}

} // verus!

//! The JSON half of the ABI that carries plain values: the list of image
//! references a lowering will demand.
use vstd::prelude::*;

use crate::text::strings_view;

verus! {

/// A hexadecimal digit in lower case.
pub open spec fn hex_digit(n: int) -> char {
    if n < 10 {
        (('0' as int) + n) as char
    } else {
        (('a' as int) + n - 10) as char
    }
}

/// How JSON writes `c` inside a string: a quote, a backslash and the five
/// controls with a short form as a backslash and a letter, any other
/// control below U+0020 as `\u00` and two lower-case hex digits, and
/// everything else as itself.
pub open spec fn json_char(c: char) -> Seq<char> {
    if c == '"' {
        seq!['\\', '"']
    } else if c == '\\' {
        seq!['\\', '\\']
    } else if c as int == 0x08 {
        seq!['\\', 'b']
    } else if c as int == 0x09 {
        seq!['\\', 't']
    } else if c as int == 0x0a {
        seq!['\\', 'n']
    } else if c as int == 0x0c {
        seq!['\\', 'f']
    } else if c as int == 0x0d {
        seq!['\\', 'r']
    } else if (c as int) < 0x20 {
        seq!['\\', 'u', '0', '0', hex_digit(c as int / 16), hex_digit(c as int % 16)]
    } else {
        seq![c]
    }
}

/// `s` as JSON writes it between its quotes.
pub open spec fn json_escaped(s: Seq<char>) -> Seq<char>
    decreases s.len(),
{
    if s.len() == 0 {
        Seq::empty()
    } else {
        json_escaped(s.drop_last()) + json_char(s.last())
    }
}

/// `items` each as a JSON string, joined by commas, without the brackets.
pub open spec fn quoted_joined(items: Seq<Seq<char>>) -> Seq<char>
    decreases items.len(),
{
    if items.len() == 0 {
        Seq::empty()
    } else {
        let head = quoted_joined(items.drop_last());
        let sep = if items.len() > 1 {
            seq![',']
        } else {
            Seq::empty()
        };
        head + sep + seq!['"'] + json_escaped(items.last()) + seq!['"']
    }
}

/// The compact JSON array of `items`, each as a JSON string.
pub open spec fn json_string_array(items: Seq<Seq<char>>) -> Seq<char> {
    seq!['['] + quoted_joined(items) + seq![']']
}

/// `serde_json::to_string` of a slice of strings: the compact formatter
/// writes `[`, each string in quotes with the escapes of `json_char`,
/// commas between them, and `]`. Writing into memory cannot fail.
#[verifier::external_body]
fn to_json_string_array(refs: &[String]) -> (s: String)
    ensures
        s@ == json_string_array(strings_view(refs@)),
{
    serde_json::to_string(refs).unwrap_or_default()
}

/// The `imageRef`s a lowering will demand, as the ABI's `json` field.
pub fn image_refs_json(refs: &[String]) -> (s: String)
    ensures
        s@ == json_string_array(strings_view(refs@)),
{
    to_json_string_array(refs)
}

// ---- reading the array back -------------------------------------------------

/// The value of a lower-case hexadecimal digit.
pub open spec fn hex_value(c: char) -> Option<int> {
    if '0' <= c && c <= '9' {
        Some(c as int - '0' as int)
    } else if 'a' <= c && c <= 'f' {
        Some(c as int - 'a' as int + 10)
    } else {
        None
    }
}

/// The character the escape at the front of a string's body stands for,
/// and how many characters it takes; `None` at the closing quote or on an
/// escape JSON does not write.
pub open spec fn read_char(t: Seq<char>) -> Option<(char, int)> {
    if t.len() == 0 || t[0] == '"' {
        None
    } else if t[0] != '\\' {
        Some((t[0], 1))
    } else if t.len() < 2 {
        None
    } else if t[1] == '"' {
        Some(('"', 2))
    } else if t[1] == '\\' {
        Some(('\\', 2))
    } else if t[1] == 'b' {
        Some((0x08u8 as char, 2))
    } else if t[1] == 't' {
        Some((0x09u8 as char, 2))
    } else if t[1] == 'n' {
        Some((0x0au8 as char, 2))
    } else if t[1] == 'f' {
        Some((0x0cu8 as char, 2))
    } else if t[1] == 'r' {
        Some((0x0du8 as char, 2))
    } else if t[1] == 'u' && t.len() >= 6 && t[2] == '0' && t[3] == '0' && hex_value(t[4]) is Some
        && hex_value(t[5]) is Some {
        Some((((hex_value(t[4])->0) * 16 + hex_value(t[5])->0) as char, 6))
    } else {
        None
    }
}

/// A string's body up to its closing quote, and what follows from that
/// quote on.
pub open spec fn read_body(t: Seq<char>) -> Option<(Seq<char>, Seq<char>)>
    decreases t.len(),
{
    if t.len() > 0 && t[0] == '"' {
        Some((Seq::empty(), t))
    } else {
        match read_char(t) {
            None => None,
            Some((c, n)) => if 0 < n <= t.len() {
                match read_body(t.skip(n)) {
                    Some((s, r)) => Some((seq![c] + s, r)),
                    None => None,
                }
            } else {
                None
            },
        }
    }
}

/// The items after a first one: `,` and a quoted string, each, then `]`.
pub open spec fn read_more(t: Seq<char>) -> Option<Seq<Seq<char>>>
    decreases t.len(),
{
    if t == seq![']'] {
        Some(Seq::empty())
    } else if t.len() >= 2 && t[0] == ',' && t[1] == '"' {
        match read_body(t.skip(2)) {
            Some((s, r)) => if r.len() > 0 && r.len() < t.len() {
                match read_more(r.skip(1)) {
                    Some(rest) => Some(seq![s] + rest),
                    None => None,
                }
            } else {
                None
            },
            None => None,
        }
    } else {
        None
    }
}

/// A compact JSON array of strings read back.
pub open spec fn read_string_array(t: Seq<char>) -> Option<Seq<Seq<char>>> {
    if t == seq!['[', ']'] {
        Some(Seq::empty())
    } else if t.len() >= 2 && t[0] == '[' && t[1] == '"' {
        match read_body(t.skip(2)) {
            Some((s, r)) => if r.len() > 0 {
                match read_more(r.skip(1)) {
                    Some(rest) => Some(seq![s] + rest),
                    None => None,
                }
            } else {
                None
            },
            None => None,
        }
    } else {
        None
    }
}

proof fn lemma_escaped_front(c: char, s: Seq<char>)
    ensures
        json_escaped(seq![c] + s) == json_char(c) + json_escaped(s),
    decreases s.len(),
{
    if s.len() == 0 {
        assert(seq![c] + s =~= seq![c]);
        assert((seq![c] + s).drop_last() =~= Seq::<char>::empty());
        assert(json_escaped(s) =~= Seq::<char>::empty());
        assert(json_char(c) + json_escaped(s) =~= json_char(c));
        assert(json_escaped(seq![c]) =~= json_escaped(Seq::<char>::empty()) + json_char(c));
    } else {
        let t = seq![c] + s;
        assert(t.drop_last() =~= seq![c] + s.drop_last());
        assert(t.last() == s.last());
        lemma_escaped_front(c, s.drop_last());
        assert(json_char(c) + json_escaped(s) =~= json_char(c) + json_escaped(s.drop_last()) + json_char(
            s.last(),
        ));
    }
}

proof fn lemma_read_char(c: char, r: Seq<char>)
    ensures
        read_char(json_char(c) + r) == Some((c, json_char(c).len() as int)),
{
    let t = json_char(c) + r;
    assert(t[0] == json_char(c)[0]);
    if json_char(c).len() >= 2 {
        assert(t[1] == json_char(c)[1]);
    }
    if (c as int) < 0x20 && c as int != 0x08 && c as int != 0x09 && c as int != 0x0a && c as int != 0x0c
        && c as int != 0x0d {
        let hi = c as int / 16;
        let lo = c as int % 16;
        assert(t[2] == '0' && t[3] == '0');
        assert(t[4] == hex_digit(hi) && t[5] == hex_digit(lo));
        assert(hex_value(hex_digit(hi)) == Some(hi));
        assert(hex_value(hex_digit(lo)) == Some(lo));
        assert(hi * 16 + lo == c as int);
    }
}

proof fn lemma_read_body(s: Seq<char>, r: Seq<char>)
    requires
        r.len() > 0,
        r[0] == '"',
    ensures
        read_body(json_escaped(s) + r) == Some((s, r)),
    decreases s.len(),
{
    if s.len() == 0 {
        assert(json_escaped(s) + r =~= r);
        assert(Seq::<char>::empty() =~= s);
    } else {
        let c = s[0];
        let rest = s.skip(1);
        assert(s =~= seq![c] + rest);
        lemma_escaped_front(c, rest);
        let t = json_escaped(s) + r;
        assert(t =~= json_char(c) + (json_escaped(rest) + r));
        lemma_read_char(c, json_escaped(rest) + r);
        assert(t[0] == json_char(c)[0]);
        assert(json_char(c)[0] != '"');
        assert(t.skip(json_char(c).len() as int) =~= json_escaped(rest) + r);
        lemma_read_body(rest, r);
        assert(seq![c] + rest =~= s);
    }
}

/// Each of `items` after a first: a comma and the item as a JSON string.
pub open spec fn more_items(items: Seq<Seq<char>>) -> Seq<char>
    decreases items.len(),
{
    if items.len() == 0 {
        Seq::empty()
    } else {
        seq![',', '"'] + json_escaped(items[0]) + seq!['"'] + more_items(items.skip(1))
    }
}

proof fn lemma_more_items_push(items: Seq<Seq<char>>, x: Seq<char>)
    ensures
        more_items(items.push(x)) == more_items(items) + seq![',', '"'] + json_escaped(x) + seq!['"'],
    decreases items.len(),
{
    if items.len() == 0 {
        assert(items.push(x).skip(1) =~= Seq::<Seq<char>>::empty());
        assert(more_items(items.push(x).skip(1)) =~= Seq::<char>::empty());
        assert(more_items(items) =~= Seq::<char>::empty());
        assert(items.push(x)[0] == x);
        assert(more_items(items.push(x)) =~= seq![',', '"'] + json_escaped(x) + seq!['"']);
    } else {
        assert(items.push(x).skip(1) =~= items.skip(1).push(x));
        lemma_more_items_push(items.skip(1), x);
        assert(more_items(items.push(x)) =~= more_items(items) + seq![',', '"'] + json_escaped(x) + seq![
            '"',
        ]);
    }
}

proof fn lemma_joined_front(items: Seq<Seq<char>>)
    requires
        items.len() > 0,
    ensures
        quoted_joined(items) == seq!['"'] + json_escaped(items[0]) + seq!['"'] + more_items(items.skip(1)),
    decreases items.len(),
{
    if items.len() == 1 {
        assert(items.drop_last() =~= Seq::<Seq<char>>::empty());
        assert(items.skip(1) =~= Seq::<Seq<char>>::empty());
        assert(quoted_joined(items.drop_last()) =~= Seq::<char>::empty());
        assert(more_items(items.skip(1)) =~= Seq::<char>::empty());
        assert(items.last() == items[0]);
        assert(quoted_joined(items) =~= seq!['"'] + json_escaped(items[0]) + seq!['"'] + more_items(
            items.skip(1),
        ));
    } else {
        let init = items.drop_last();
        lemma_joined_front(init);
        assert(init.skip(1).push(items.last()) =~= items.skip(1));
        lemma_more_items_push(init.skip(1), items.last());
        assert(quoted_joined(items) =~= seq!['"'] + json_escaped(items[0]) + seq!['"'] + more_items(
            items.skip(1),
        ));
    }
}

proof fn lemma_read_more(items: Seq<Seq<char>>)
    ensures
        read_more(more_items(items) + seq![']']) == Some(items),
    decreases items.len(),
{
    let t = more_items(items) + seq![']'];
    if items.len() == 0 {
        assert(t =~= seq![']']);
        assert(items =~= Seq::<Seq<char>>::empty());
    } else {
        let x = items[0];
        let rest = items.skip(1);
        let r = seq!['"'] + (more_items(rest) + seq![']']);
        assert(t =~= seq![',', '"'] + (json_escaped(x) + r));
        assert(t != seq![']']) by {
            assert(t[0] == ',');
        }
        assert(t.skip(2) =~= json_escaped(x) + r);
        lemma_read_body(x, r);
        assert(r.skip(1) =~= more_items(rest) + seq![']']);
        lemma_read_more(rest);
        assert(seq![x] + rest =~= items);
    }
}

/// The array `image_refs_json` writes reads back as the refs it was given,
/// each once per occurrence and in order: JSON's string escapes lose
/// nothing, so no two lists of refs are written alike.
pub proof fn string_array_reads_back(items: Seq<Seq<char>>)
    ensures
        read_string_array(json_string_array(items)) == Some(items),
{
    let t = json_string_array(items);
    if items.len() == 0 {
        assert(quoted_joined(items) =~= Seq::<char>::empty());
        assert(t =~= seq!['[', ']']);
        assert(items =~= Seq::<Seq<char>>::empty());
    } else {
        lemma_joined_front(items);
        let x = items[0];
        let rest = items.skip(1);
        let r = seq!['"'] + (more_items(rest) + seq![']']);
        assert(t =~= seq!['[', '"'] + (json_escaped(x) + r));
        assert(t != seq!['[', ']']) by {
            assert(t[1] == '"');
        }
        assert(t.skip(2) =~= json_escaped(x) + r);
        lemma_read_body(x, r);
        assert(r.skip(1) =~= more_items(rest) + seq![']']);
        lemma_read_more(rest);
        assert(seq![x] + rest =~= items);
    }
}

} // verus!

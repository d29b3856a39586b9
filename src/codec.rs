//! The line format of the data file: `<escaped key>||<escaped value>`, where
//! escaping puts a backslash before every backslash and every pipe.
use vstd::prelude::*;
use crate::error::StoreError;

verus! {

/// A character that must be escaped inside a field.
pub open spec fn is_special(c: char) -> bool {
    c == '\\' || c == '|'
}

/// The escaped form of a field, one character at a time.
pub open spec fn encode_field(s: Seq<char>) -> Seq<char>
    decreases s.len(),
{
    if s.len() == 0 {
        Seq::empty()
    } else if is_special(s[0]) {
        seq!['\\', s[0]] + encode_field(s.drop_first())
    } else {
        seq![s[0]] + encode_field(s.drop_first())
    }
}

/// Undoes escaping: a backslash before a backslash or a pipe stands for that
/// character; any other character, a backslash before anything else included,
/// stands for itself.
pub open spec fn decode_field(s: Seq<char>) -> Seq<char>
    decreases s.len(),
{
    if s.len() == 0 {
        Seq::empty()
    } else if s[0] == '\\' && s.len() >= 2 && is_special(s[1]) {
        seq![s[1]] + decode_field(s.skip(2))
    } else {
        seq![s[0]] + decode_field(s.drop_first())
    }
}

/// One record as a line: the escaped key, the delimiter `||`, the escaped value.
pub open spec fn encode_line(key: Seq<char>, val: Seq<char>) -> Seq<char> {
    encode_field(key) + seq!['|', '|'] + encode_field(val)
}

/// Puts `p` in front of the key of a split, if there is one.
pub open spec fn prepend_key(p: Seq<char>, o: Option<(Seq<char>, Seq<char>)>) -> Option<
    (Seq<char>, Seq<char>),
> {
    match o {
        Some((k, rest)) => Some((p + k, rest)),
        None => None,
    }
}

/// Reads a line up to its first unescaped `||`: the decoded key and the raw
/// text after the delimiter, or `None` where the line holds no such delimiter.
pub open spec fn split_key(s: Seq<char>) -> Option<(Seq<char>, Seq<char>)>
    decreases s.len(),
{
    if s.len() == 0 {
        None
    } else if s[0] == '\\' && s.len() >= 2 && is_special(s[1]) {
        prepend_key(seq![s[1]], split_key(s.skip(2)))
    } else if s[0] == '|' && s.len() >= 2 && s[1] == '|' {
        Some((Seq::empty(), s.skip(2)))
    } else {
        prepend_key(seq![s[0]], split_key(s.drop_first()))
    }
}

/// The record that a line stands for, or `None` for a malformed line.
pub open spec fn decode_line(s: Seq<char>) -> Option<(Seq<char>, Seq<char>)> {
    match split_key(s) {
        Some((k, rest)) => Some((k, decode_field(rest))),
        None => None,
    }
}

/// Decoding undoes encoding: `decode_field` is a left inverse of `encode_field`.
pub proof fn lemma_decode_encode_field(s: Seq<char>)
    ensures
        decode_field(encode_field(s)) == s,
    decreases s.len(),
{
    if s.len() > 0 {
        let e = encode_field(s);
        let rest = encode_field(s.drop_first());
        lemma_decode_encode_field(s.drop_first());
        if is_special(s[0]) {
            assert(e.skip(2) =~= rest);
        } else {
            assert(e.drop_first() =~= rest);
        }
        assert(seq![s[0]] + s.drop_first() =~= s);
    }
}

/// The first unescaped delimiter of an encoded key followed by `||` is that `||`.
pub proof fn lemma_split_key_encoded(k: Seq<char>, t: Seq<char>)
    ensures
        split_key(encode_field(k) + seq!['|', '|'] + t) == Some((k, t)),
    decreases k.len(),
{
    let s = encode_field(k) + seq!['|', '|'] + t;
    if k.len() == 0 {
        assert(encode_field(k) =~= Seq::<char>::empty());
        assert(s.skip(2) =~= t);
        assert(k =~= Seq::<char>::empty());
    } else {
        let tail = encode_field(k.drop_first()) + seq!['|', '|'] + t;
        lemma_split_key_encoded(k.drop_first(), t);
        if is_special(k[0]) {
            assert(s.skip(2) =~= tail);
        } else {
            assert(s.drop_first() =~= tail);
        }
        assert(seq![k[0]] + k.drop_first() =~= k);
    }
}

/// Every record survives a trip through its line: decoding the line of
/// `(key, val)` gives back `(key, val)`, whatever characters they hold.
pub proof fn lemma_line_round_trip(key: Seq<char>, val: Seq<char>)
    ensures
        decode_line(encode_line(key, val)) == Some((key, val)),
{
    lemma_split_key_encoded(key, encode_field(val));
    lemma_decode_encode_field(val);
}

proof fn lemma_prepend_key_assoc(a: Seq<char>, b: Seq<char>, o: Option<(Seq<char>, Seq<char>)>)
    ensures
        prepend_key(a, prepend_key(b, o)) == prepend_key(a + b, o),
{
    if let Some((k, rest)) = o {
        assert(a + (b + k) =~= (a + b) + k);
    }
}

/// Escapes every backslash and every pipe of `s` with a backslash.
pub fn escape_str(s: &str) -> (r: String)
    ensures
        r@ == encode_field(s@),
{
    let n = s.unicode_len();
    let mut out = String::new();
    let mut i: usize = 0;
    assert(out@ + encode_field(s@.skip(0)) =~= encode_field(s@)) by {
        assert(s@.skip(0) =~= s@);
    }
    while i < n
        invariant
            n == s@.len(),
            i <= n,
            out@ + encode_field(s@.skip(i as int)) == encode_field(s@),
        decreases n - i,
    {
        let c = s.get_char(i);
        let one = s.substring_char(i, i + 1);
        proof {
            reveal_strlit("\\");
            assert(s@.skip(i as int).drop_first() =~= s@.skip(i + 1));
            assert(one@ =~= seq![c]);
        }
        if c == '\\' || c == '|' {
            out.append("\\");
        }
        out.append(one);
        proof {
            let rest = encode_field(s@.skip(i + 1));
            if is_special(c) {
                assert(out@ + rest =~= (out@.drop_last().drop_last()) + (seq!['\\', c] + rest));
            }
            else {
                assert(out@ + rest =~= out@.drop_last() + (seq![c] + rest));
            }
        }
        i = i + 1;
    }
    proof {
        assert(s@.skip(n as int) =~= Seq::<char>::empty());
        assert(out@ =~= out@ + Seq::<char>::empty());
    }
    out
}

/// Undoes `escape_str`: `\\` becomes `\` and `\|` becomes `|`; everything else is kept.
pub fn unescape_str(raw: &str) -> (r: String)
    ensures
        r@ == decode_field(raw@),
{
    let n = raw.unicode_len();
    let mut out = String::new();
    let mut i: usize = 0;
    assert(out@ + decode_field(raw@.skip(0)) =~= decode_field(raw@)) by {
        assert(raw@.skip(0) =~= raw@);
    }
    while i < n
        invariant
            n == raw@.len(),
            i <= n,
            out@ + decode_field(raw@.skip(i as int)) == decode_field(raw@),
        decreases n - i,
    {
        let c = raw.get_char(i);
        if c == '\\' && i + 1 < n && (raw.get_char(i + 1) == '\\' || raw.get_char(i + 1) == '|') {
            let next = raw.substring_char(i + 1, i + 2);
            proof {
                assert(raw@.skip(i as int).skip(2) =~= raw@.skip(i + 2));
                assert(next@ =~= seq![raw@[i + 1]]);
                let rest = decode_field(raw@.skip(i + 2));
                assert((out@ + next@) + rest =~= out@ + (next@ + rest));
            }
            out.append(next);
            i = i + 2;
        } else {
            let one = raw.substring_char(i, i + 1);
            proof {
                assert(raw@.skip(i as int).drop_first() =~= raw@.skip(i + 1));
                assert(one@ =~= seq![c]);
                let rest = decode_field(raw@.skip(i + 1));
                assert((out@ + one@) + rest =~= out@ + (one@ + rest));
            }
            out.append(one);
            i = i + 1;
        }
    }
    proof {
        assert(raw@.skip(n as int) =~= Seq::<char>::empty());
        assert(out@ =~= out@ + Seq::<char>::empty());
    }
    out
}

/// The line that stores the record `(key, val)`.
pub fn key_val_to_raw_line(key: &str, val: &str) -> (r: String)
    ensures
        r@ == encode_line(key@, val@),
{
    let mut line = escape_str(key);
    let escaped_val = escape_str(val);
    proof {
        reveal_strlit("||");
    }
    line.append("||");
    line.append(escaped_val.as_str());
    line
}

/// Reads the record that a line stores. The key runs to the first `||` that
/// is not part of an escape `\\` or `\|`; a line without one is a `MalformedRecord`.
pub fn raw_line_to_key_val(raw: String) -> (r: Result<(String, String), StoreError>)
    ensures
        r is Ok <==> decode_line(raw@) is Some,
        r is Ok ==> decode_line(raw@) == Some((r->Ok_0.0@, r->Ok_0.1@)),
        r is Err ==> r->Err_0 == StoreError::MalformedRecord,
{
    let n = raw.unicode_len();
    let mut key = String::new();
    let mut i: usize = 0;
    assert(split_key(raw@) == prepend_key(key@, split_key(raw@.skip(0)))) by {
        assert(raw@.skip(0) =~= raw@);
        lemma_prepend_key_empty(split_key(raw@));
    }
    while i < n
        invariant
            n == raw@.len(),
            i <= n,
            split_key(raw@) == prepend_key(key@, split_key(raw@.skip(i as int))),
        decreases n - i,
    {
        let c = raw.get_char(i);
        if c == '\\' && i + 1 < n && (raw.get_char(i + 1) == '\\' || raw.get_char(i + 1) == '|') {
            let next = raw.substring_char(i + 1, i + 2);
            proof {
                assert(raw@.skip(i as int).skip(2) =~= raw@.skip(i + 2));
                assert(next@ =~= seq![raw@[i + 1]]);
                lemma_prepend_key_assoc(key@, next@, split_key(raw@.skip(i + 2)));
            }
            key.append(next);
            i = i + 2;
        } else if c == '|' && i + 1 < n && raw.get_char(i + 1) == '|' {
            let rest = raw.substring_char(i + 2, n);
            proof {
                assert(raw@.skip(i as int).skip(2) =~= rest@);
                assert(key@ + Seq::<char>::empty() =~= key@);
            }
            let val = unescape_str(rest);
            return Ok((key, val));
        } else {
            let one = raw.substring_char(i, i + 1);
            proof {
                assert(raw@.skip(i as int).drop_first() =~= raw@.skip(i + 1));
                assert(one@ =~= seq![c]);
                lemma_prepend_key_assoc(key@, one@, split_key(raw@.skip(i + 1)));
            }
            key.append(one);
            i = i + 1;
        }
    }
    assert(raw@.skip(n as int) =~= Seq::<char>::empty());
    Err(StoreError::MalformedRecord)
}

proof fn lemma_prepend_key_empty(o: Option<(Seq<char>, Seq<char>)>)
    ensures
        prepend_key(Seq::empty(), o) == o,
{
    if let Some((k, rest)) = o {
        assert(Seq::<char>::empty() + k =~= k);
    }
}

} // verus!

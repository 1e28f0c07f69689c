//! The zone-file text form of domain names.
use vstd::prelude::*;
use crate::error::NameTextError;
use crate::name::{label_ok, labels_wire, valid_name, wire, lemma_wire_push};
use crate::txt::{digit_char, digit_value, is_digit, lemma_digit};

verus! {

/// A byte written as itself in text: a letter, a digit, `-` or `_`.
pub open spec fn plain_byte(b: u8) -> bool {
    (48 <= b <= 57) || (65 <= b <= 90) || (97 <= b <= 122) || b == 45 || b == 95
}

/// One byte of a label in text: itself when plain, else `\` and three decimal digits.
pub open spec fn byte_text(b: u8) -> Seq<char> {
    if plain_byte(b) {
        seq![b as char]
    } else {
        seq!['\\', digit_char((b / 100) as nat), digit_char((b / 10 % 10) as nat), digit_char((b % 10) as nat)]
    }
}

pub open spec fn label_text(l: Seq<u8>) -> Seq<char>
    decreases l.len(),
{
    if l.len() == 0 {
        Seq::<char>::empty()
    } else {
        label_text(l.drop_last()) + byte_text(l.last())
    }
}

/// Each label in text followed by a dot.
pub open spec fn labels_text(n: Seq<Seq<u8>>) -> Seq<char>
    decreases n.len(),
{
    if n.len() == 0 {
        Seq::<char>::empty()
    } else {
        labels_text(n.drop_last()) + label_text(n.last()) + seq!['.']
    }
}

/// The absolute text form of a name: `.` for the root, else each label followed by a dot.
pub open spec fn name_text(n: Seq<Seq<u8>>) -> Seq<char> {
    if n.len() == 0 {
        seq!['.']
    } else {
        labels_text(n)
    }
}

/// Scans name text from `i`, with `cur` the label being read and `acc` the labels
/// completed; gives the completed labels and what is left of the last one.
pub open spec fn scan(s: Seq<char>, i: int, cur: Seq<u8>, acc: Seq<Seq<u8>>) -> Result<
    (Seq<Seq<u8>>, Seq<u8>),
    NameTextError,
>
    decreases s.len() - i,
{
    if i < 0 || i >= s.len() {
        Ok((acc, cur))
    } else if s[i] == '.' {
        if cur.len() == 0 {
            Err(NameTextError::EmptyLabel)
        } else if cur.len() > 63 {
            Err(NameTextError::LabelTooLong)
        } else if wire(acc.push(cur)).len() > 255 {
            Err(NameTextError::NameTooLong)
        } else {
            scan(s, i + 1, Seq::empty(), acc.push(cur))
        }
    } else if s[i] == '\\' {
        if i + 1 >= s.len() {
            Err(NameTextError::BadCharacter)
        } else if is_digit(s[i + 1]) {
            if i + 3 >= s.len() || !is_digit(s[i + 2]) || !is_digit(s[i + 3]) {
                Err(NameTextError::BadCharacter)
            } else {
                let v = digit_value(s[i + 1]) * 100 + digit_value(s[i + 2]) * 10 + digit_value(s[i + 3]);
                if v > 255 {
                    Err(NameTextError::BadCharacter)
                } else {
                    scan(s, i + 4, cur.push(v as u8), acc)
                }
            }
        } else if (s[i + 1] as u32) < 128 {
            scan(s, i + 2, cur.push((s[i + 1] as u32) as u8), acc)
        } else {
            Err(NameTextError::BadCharacter)
        }
    } else if (s[i] as u32) < 128 {
        scan(s, i + 1, cur.push((s[i] as u32) as u8), acc)
    } else {
        Err(NameTextError::BadCharacter)
    }
}

/// The name that text `s` stands for. A name that does not end in a dot is
/// relative and is completed with `origin`.
pub open spec fn parse_name_spec(s: Seq<char>, origin: Option<Seq<Seq<u8>>>) -> Result<
    Seq<Seq<u8>>,
    NameTextError,
> {
    if s.len() == 0 {
        Err(NameTextError::Empty)
    } else if s.len() == 1 && s[0] == '.' {
        Ok(Seq::empty())
    } else {
        match scan(s, 0, Seq::empty(), Seq::empty()) {
            Err(e) => Err(e),
            Ok((acc, cur)) => if cur.len() == 0 {
                Ok(acc)
            } else if cur.len() > 63 {
                Err(NameTextError::LabelTooLong)
            } else if wire(acc.push(cur)).len() > 255 {
                Err(NameTextError::NameTooLong)
            } else {
                match origin {
                    None => Err(NameTextError::RelativeWithoutOrigin),
                    Some(o) => if wire(acc.push(cur) + o).len() > 255 {
                        Err(NameTextError::NameTooLong)
                    } else {
                        Ok(acc.push(cur) + o)
                    },
                }
            },
        }
    }
}

pub proof fn lemma_labels_wire_concat(a: Seq<Seq<u8>>, b: Seq<Seq<u8>>)
    ensures
        labels_wire(a + b) == labels_wire(a) + labels_wire(b),
        wire(a + b).len() == labels_wire(a).len() + wire(b).len(),
    decreases b.len(),
{
    if b.len() == 0 {
        assert(a + b =~= a);
        assert(labels_wire(b) =~= Seq::<u8>::empty());
        assert(labels_wire(a) + labels_wire(b) =~= labels_wire(a));
    } else {
        lemma_labels_wire_concat(a, b.drop_last());
        assert((a + b).drop_last() =~= a + b.drop_last());
        assert((a + b).last() == b.last());
        assert(labels_wire(a + b) =~= labels_wire(a) + labels_wire(b));
    }
}

proof fn lemma_scan_byte(s: Seq<char>, j: int, b: u8, cur: Seq<u8>, acc: Seq<Seq<u8>>)
    requires
        0 <= j,
        j + byte_text(b).len() <= s.len(),
        s.subrange(j, j + byte_text(b).len()) == byte_text(b),
    ensures
        scan(s, j, cur, acc) == scan(s, j + byte_text(b).len(), cur.push(b), acc),
{
    let t = byte_text(b);
    assert(s[j] == t[0]);
    if plain_byte(b) {
        assert(((b as char) as u32) as u8 == b);
    } else {
        assert(s[j + 1] == t[1]);
        assert(s[j + 2] == t[2]);
        assert(s[j + 3] == t[3]);
        lemma_digit((b / 100) as nat);
        lemma_digit((b / 10 % 10) as nat);
        lemma_digit((b % 10) as nat);
        assert((b / 100) * 100 + (b / 10 % 10) * 10 + b % 10 == b) by (nonlinear_arith);
    }
}

proof fn lemma_scan_label(s: Seq<char>, i: int, l: Seq<u8>, cur: Seq<u8>, acc: Seq<Seq<u8>>)
    requires
        0 <= i,
        i + label_text(l).len() <= s.len(),
        s.subrange(i, i + label_text(l).len()) == label_text(l),
    ensures
        scan(s, i, cur, acc) == scan(s, i + label_text(l).len(), cur + l, acc),
    decreases l.len(),
{
    if l.len() == 0 {
        assert(cur + l =~= cur);
    } else {
        let p = l.drop_last();
        let a = label_text(p).len() as int;
        let t = label_text(l);
        assert(t == label_text(p) + byte_text(l.last()));
        assert(s.subrange(i, i + a) =~= t.subrange(0, a));
        assert(t.subrange(0, a) =~= label_text(p));
        lemma_scan_label(s, i, p, cur, acc);
        assert(s.subrange(i + a, i + t.len()) =~= t.subrange(a, t.len() as int));
        assert(t.subrange(a, t.len() as int) =~= byte_text(l.last()));
        lemma_scan_byte(s, i + a, l.last(), cur + p, acc);
        assert((cur + p).push(l.last()) =~= cur + l);
    }
}

proof fn lemma_label_text_nonempty(l: Seq<u8>)
    requires
        l.len() > 0,
    ensures
        label_text(l).len() > 0,
{
}

proof fn lemma_scan_labels(s: Seq<char>, i: int, n: Seq<Seq<u8>>, acc: Seq<Seq<u8>>)
    requires
        0 <= i,
        i + labels_text(n).len() <= s.len(),
        s.subrange(i, i + labels_text(n).len()) == labels_text(n),
        valid_name(acc + n),
    ensures
        scan(s, i, Seq::empty(), acc) == scan(s, i + labels_text(n).len(), Seq::empty(), acc + n),
    decreases n.len(),
{
    if n.len() == 0 {
        assert(acc + n =~= acc);
    } else {
        let p = n.drop_last();
        let l = n.last();
        let a = labels_text(p).len() as int;
        let b = label_text(l).len() as int;
        let t = labels_text(n);
        assert(t == labels_text(p) + label_text(l) + seq!['.']);
        assert(acc + n =~= (acc + p).push(l));
        assert(label_ok((acc + n)[acc.len() + n.len() - 1]));
        lemma_wire_push(acc + p, l);
        assert(forall|k: int| 0 <= k < (acc + p).len() ==> (acc + p)[k] == (acc + n)[k]);
        assert(valid_name(acc + p));
        assert(s.subrange(i, i + a) =~= t.subrange(0, a));
        assert(t.subrange(0, a) =~= labels_text(p));
        lemma_scan_labels(s, i, p, acc);
        assert(s.subrange(i + a, i + a + b) =~= t.subrange(a, a + b));
        assert(t.subrange(a, a + b) =~= label_text(l));
        lemma_scan_label(s, i + a, l, Seq::empty(), acc + p);
        assert(Seq::<u8>::empty() + l =~= l);
        assert(s[i + a + b] == t[a + b]);
    }
}

/// Reading back the text form of a valid name gives the name, whatever the origin.
pub proof fn lemma_name_text_inverse(n: Seq<Seq<u8>>, origin: Option<Seq<Seq<u8>>>)
    requires
        valid_name(n),
    ensures
        parse_name_spec(name_text(n), origin) == Ok::<Seq<Seq<u8>>, NameTextError>(n),
{
    if n.len() > 0 {
        let s = name_text(n);
        let p = n.drop_last();
        assert(label_ok(n[n.len() - 1]));
        lemma_label_text_nonempty(n.last());
        assert(s == labels_text(p) + label_text(n.last()) + seq!['.']);
        assert(s.len() >= 2);
        assert(s.subrange(0, s.len() as int) =~= s);
        assert(Seq::<Seq<u8>>::empty() + n =~= n);
        lemma_scan_labels(s, 0, n, Seq::empty());
        assert(scan(s, s.len() as int, Seq::empty(), n) == Ok::<(Seq<Seq<u8>>, Seq<u8>), NameTextError>((n, Seq::empty())));
    } else {
        assert(n =~= Seq::<Seq<u8>>::empty());
    }
}

} // verus!

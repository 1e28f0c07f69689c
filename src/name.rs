use vstd::prelude::*;
use vstd::string::*;
use crate::binary::{BinDecoder, BinEncoder};
use crate::error::{DecodeError, EncodeError, NameTextError};
use crate::text_spec::{
    byte_text, label_text, labels_text, lemma_labels_wire_concat, name_text, parse_name_spec,
    scan,
};
use crate::txt::{digit, digit_value, string_from_chars};

verus! {

/// A label holds 1 to 63 bytes.
pub open spec fn label_ok(l: Seq<u8>) -> bool {
    1 <= l.len() <= 63
}

/// The length-prefixed labels of a name, without the root terminator.
pub open spec fn labels_wire(n: Seq<Seq<u8>>) -> Seq<u8>
    decreases n.len(),
{
    if n.len() == 0 {
        Seq::<u8>::empty()
    } else {
        labels_wire(n.drop_last()) + seq![n.last().len() as u8] + n.last()
    }
}

/// The uncompressed wire form of a name: its labels, then a zero byte.
pub open spec fn wire(n: Seq<Seq<u8>>) -> Seq<u8> {
    labels_wire(n) + seq![0u8]
}

/// A name whose labels all have a legal length and whose wire form fits in 255 bytes.
pub open spec fn valid_name(n: Seq<Seq<u8>>) -> bool {
    &&& forall|i: int| 0 <= i < n.len() ==> #[trigger] label_ok(n[i])
    &&& wire(n).len() <= 255
}

pub open spec fn lower_byte(b: u8) -> u8 {
    if 65 <= b <= 90 {
        (b + 32) as u8
    } else {
        b
    }
}

pub open spec fn lower_label(l: Seq<u8>) -> Seq<u8> {
    Seq::new(l.len(), |i: int| lower_byte(l[i]))
}

/// A name with every ASCII upper-case letter of every label lowered.
pub open spec fn lower_name(n: Seq<Seq<u8>>) -> Seq<Seq<u8>> {
    Seq::new(n.len(), |i: int| lower_label(n[i]))
}

/// The labels of a name as read from `buf` at `pos`, following compression
/// pointers, each of which must point before the start `lo` of the run of labels
/// that holds it. `end` is where the cursor stops once a pointer has been taken.
/// Gives the labels and the position after the name's first run.
pub open spec fn read_labels(
    buf: Seq<u8>,
    pos: int,
    lo: int,
    acc: Seq<Seq<u8>>,
    end: Option<int>,
) -> Result<(Seq<Seq<u8>>, int), DecodeError>
    decreases lo, buf.len() - pos,
{
    if pos < 0 || lo < 0 || pos >= buf.len() {
        Err(DecodeError::InsufficientData)
    } else {
        let b = buf[pos];
        if b == 0 {
            Ok((acc, if end is Some { end->0 } else { pos + 1 }))
        } else if b >= 192 {
            if pos + 1 >= buf.len() {
                Err(DecodeError::InsufficientData)
            } else {
                let target = (b - 192) * 256 + buf[pos + 1];
                if target >= lo {
                    Err(DecodeError::BadPointer(target as u16))
                } else {
                    read_labels(
                        buf,
                        target,
                        target,
                        acc,
                        if end is Some { end } else { Some(pos + 2) },
                    )
                }
            }
        } else if b >= 64 {
            Err(DecodeError::UnrecognizedLabelCode(b))
        } else if pos + 1 + b > buf.len() {
            Err(DecodeError::InsufficientData)
        } else {
            let l = buf.subrange(pos + 1, pos + 1 + b);
            if wire(acc.push(l)).len() > 255 {
                Err(DecodeError::DomainNameTooLong)
            } else {
                read_labels(buf, pos + 1 + b, lo, acc.push(l), end)
            }
        }
    }
}

pub proof fn lemma_wire_push(n: Seq<Seq<u8>>, l: Seq<u8>)
    ensures
        labels_wire(n.push(l)) == labels_wire(n) + seq![l.len() as u8] + l,
        wire(n.push(l)).len() == wire(n).len() + 1 + l.len(),
{
    assert(n.push(l).drop_last() =~= n);
}

pub proof fn lemma_lower_wire_len(n: Seq<Seq<u8>>)
    ensures
        labels_wire(lower_name(n)).len() == labels_wire(n).len(),
        wire(lower_name(n)).len() == wire(n).len(),
    decreases n.len(),
{
    if n.len() > 0 {
        assert(lower_name(n).drop_last() =~= lower_name(n.drop_last()));
        lemma_lower_wire_len(n.drop_last());
    }
}

/// Lowering the letters of a valid name keeps it valid and keeps its structure.
pub proof fn lemma_lower_valid(n: Seq<Seq<u8>>)
    requires
        valid_name(n),
    ensures
        valid_name(lower_name(n)),
        lower_name(n).len() == n.len(),
        forall|i: int| 0 <= i < n.len() ==> (#[trigger] lower_name(n)[i]).len() == n[i].len(),
{
    lemma_lower_wire_len(n);
    assert forall|i: int| 0 <= i < n.len() implies #[trigger] label_ok(lower_name(n)[i]) by {
        assert(label_ok(n[i]));
    }
}

/// Reading the wire form of a valid name gives the name back and leaves the
/// cursor just past it.
pub proof fn lemma_read_wire(buf: Seq<u8>, p: int, n: Seq<Seq<u8>>, k: int)
    requires
        valid_name(n),
        0 <= p,
        0 <= k <= n.len(),
        p + wire(n).len() <= buf.len(),
        buf.subrange(p, p + wire(n).len()) == wire(n),
    ensures
        read_labels(buf, p + labels_wire(n.subrange(0, k)).len(), p, n.subrange(0, k), None)
            == Ok::<(Seq<Seq<u8>>, int), DecodeError>((n, p + wire(n).len())),
    decreases n.len() - k,
{
    lemma_prefix_wire(n, k);
    let pre = labels_wire(n.subrange(0, k));
    let pos = p + pre.len();
    if k == n.len() {
        assert(n.subrange(0, k) =~= n);
        assert(buf[pos] == wire(n)[pre.len() as int]);
    } else {
        let l = n[k];
        assert(label_ok(l));
        assert(n.subrange(0, k + 1) =~= n.subrange(0, k).push(l));
        lemma_wire_push(n.subrange(0, k), l);
        lemma_prefix_wire(n, k + 1);
        let pre1 = labels_wire(n.subrange(0, k + 1));
        assert(wire(n).subrange(0, pre1.len() as int) == pre1);
        assert(buf[pos] == wire(n)[pre.len() as int]);
        assert(pre1[pre.len() as int] == l.len() as u8);
        assert(buf.subrange(pos + 1, pos + 1 + l.len()) =~= l) by {
            assert forall|j: int| 0 <= j < l.len() implies buf[pos + 1 + j] == l[j] by {
                assert(buf[pos + 1 + j] == wire(n)[pre.len() + 1 + j]);
                assert(pre1[pre.len() + 1 + j] == l[j]);
            }
        }
        lemma_prefix_wire_len(n, k + 1);
        lemma_read_wire(buf, p, n, k + 1);
    }
}

/// The wire form of a prefix of a name's labels begins its wire form.
proof fn lemma_prefix_wire(n: Seq<Seq<u8>>, k: int)
    requires
        0 <= k <= n.len(),
    ensures
        labels_wire(n.subrange(0, k)).len() <= labels_wire(n).len(),
        wire(n).subrange(0, labels_wire(n.subrange(0, k)).len() as int) == labels_wire(
            n.subrange(0, k),
        ),
    decreases n.len() - k,
{
    if k == n.len() {
        assert(n.subrange(0, k) =~= n);
        assert(wire(n).subrange(0, labels_wire(n).len() as int) =~= labels_wire(n));
    } else {
        lemma_prefix_wire(n, k + 1);
        let l = n[k];
        assert(n.subrange(0, k + 1) =~= n.subrange(0, k).push(l));
        lemma_wire_push(n.subrange(0, k), l);
        let a = labels_wire(n.subrange(0, k));
        let b = labels_wire(n.subrange(0, k + 1));
        assert(wire(n).subrange(0, a.len() as int) =~= b.subrange(0, a.len() as int));
        assert(b.subrange(0, a.len() as int) =~= a);
    }
}

/// The wire length of a prefix stays within the bound of a valid name.
pub proof fn lemma_prefix_wire_len(n: Seq<Seq<u8>>, k: int)
    requires
        0 <= k <= n.len(),
    ensures
        wire(n.subrange(0, k)).len() <= wire(n).len(),
{
    lemma_prefix_wire(n, k);
}


/// A domain name: a sequence of labels, the root having none.
#[derive(Debug, Clone, Hash)]
pub struct Name {
    labels: Vec<Vec<u8>>,
}

impl View for Name {
    type V = Seq<Seq<u8>>;

    closed spec fn view(&self) -> Seq<Seq<u8>> {
        Seq::new(self.labels@.len(), |i: int| self.labels@[i]@)
    }
}

impl Name {
    pub open spec fn wf(&self) -> bool {
        valid_name(self@)
    }

    /// The root name.
    pub fn new() -> (r: Name)
        ensures
            r@ == Seq::<Seq<u8>>::empty(),
            r.wf(),
    {
        let r = Name { labels: Vec::new() };
        assert(r@ =~= Seq::<Seq<u8>>::empty());
        r
    }

    /// This name with `label` appended as its last label.
    pub fn label(self, label: &str) -> (r: Name)
        requires
            self.wf(),
            label_ok(label.spec_bytes()),
            wire(self@).len() + 1 + label.spec_bytes().len() <= 255,
        ensures
            r@ == self@.push(label.spec_bytes()),
            r.wf(),
    {
        let bytes = label.as_bytes();
        let mut l: Vec<u8> = Vec::new();
        let mut i: usize = 0;
        while i < bytes.len()
            invariant
                i <= bytes@.len(),
                l@ == bytes@.subrange(0, i as int),
            decreases bytes@.len() - i,
        {
            l.push(bytes[i]);
            i = i + 1;
        }
        assert(l@ =~= label.spec_bytes());
        let mut labels = self.labels;
        let ghost old_labels = labels@;
        labels.push(l);
        let r = Name { labels };
        assert(r@ =~= self@.push(label.spec_bytes())) by {
            assert(old_labels.len() == self@.len());
        }
        proof {
            lemma_wire_push(self@, label.spec_bytes());
        }
        r
    }

    pub fn num_labels(&self) -> (r: usize)
        ensures
            r == self@.len(),
    {
        self.labels.len()
    }

    pub fn is_root(&self) -> (r: bool)
        ensures
            r == (self@.len() == 0),
    {
        self.labels.len() == 0
    }

    /// The uncompressed wire form, with letters lowered when `lowercase` is set.
    pub fn to_wire(&self, lowercase: bool) -> (r: Vec<u8>)
        requires
            self.wf(),
        ensures
            r@ == wire(if lowercase { lower_name(self@) } else { self@ }),
    {
        let ghost target = if lowercase { lower_name(self@) } else { self@ };
        proof {
            lemma_lower_valid(self@);
        }
        let mut out: Vec<u8> = Vec::new();
        let mut i: usize = 0;
        while i < self.labels.len()
            invariant
                self.wf(),
                target == if lowercase { lower_name(self@) } else { self@ },
                target.len() == self@.len(),
                forall|k: int| 0 <= k < self@.len() ==> (#[trigger] target[k]).len() == self@[k].len(),
                i <= self.labels@.len(),
                out@ == labels_wire(target.subrange(0, i as int)),
            decreases self.labels@.len() - i,
        {
            let l = &self.labels[i];
            assert(l@ == self@[i as int]);
            assert(label_ok(self@[i as int]));
            let ghost before = out@;
            out.push(l.len() as u8);
            let mut j: usize = 0;
            while j < l.len()
                invariant
                    l@ == self@[i as int],
                    target == if lowercase { lower_name(self@) } else { self@ },
                    i < self@.len(),
                    target[i as int].len() == l@.len(),
                    j <= l@.len(),
                    out@ == before + seq![l@.len() as u8] + target[i as int].subrange(0, j as int),
                decreases l@.len() - j,
            {
                let b = l[j];
                let c: u8 = if lowercase && b >= 65 && b <= 90 { b + 32 } else { b };
                assert(c == target[i as int][j as int]);
                out.push(c);
                assert(out@ =~= before + seq![l@.len() as u8] + target[i as int].subrange(0, j + 1));
                j = j + 1;
            }
            proof {
                assert(target[i as int].subrange(0, j as int) =~= target[i as int]);
                assert(target.subrange(0, i + 1) =~= target.subrange(0, i as int).push(target[i as int]));
                lemma_wire_push(target.subrange(0, i as int), target[i as int]);
            }
            i = i + 1;
        }
        assert(target.subrange(0, i as int) =~= target);
        out.push(0);
        out
    }

    /// Writes the name to `encoder`, lowering its letters when `lowercase` is set;
    /// the name itself is left as it is.
    pub fn emit_with_lowercase(&self, encoder: &mut BinEncoder, lowercase: bool) -> (r: Result<(), EncodeError>)
        requires
            self.wf(),
        ensures
            final(encoder).limit() == old(encoder).limit(),
            final(encoder).canonical() == old(encoder).canonical(),
            old(encoder).bytes().len() + wire(self@).len() <= old(encoder).limit() ==> r is Ok
                && final(encoder).bytes() == old(encoder).bytes() + wire(
                if lowercase { lower_name(self@) } else { self@ },
            ),
            old(encoder).bytes().len() + wire(self@).len() > old(encoder).limit() ==> r
                == Err::<(), EncodeError>(EncodeError::MaxBufferSizeExceeded(old(encoder).limit() as usize))
                && final(encoder).bytes() == old(encoder).bytes(),
    {
        let bytes = self.to_wire(lowercase);
        proof {
            lemma_lower_wire_len(self@);
        }
        encoder.emit_vec(&bytes)
    }

    /// Reads a name at the decoder's cursor, following compression pointers.
    pub fn read(decoder: &mut BinDecoder) -> (r: Result<Name, DecodeError>)
        requires
            old(decoder).wf(),
        ensures
            final(decoder).wf(),
            final(decoder).buf() == old(decoder).buf(),
            match read_labels(old(decoder).buf(), old(decoder).pos(), old(decoder).pos(), Seq::empty(), None) {
                Ok((n, end)) => r is Ok && r->Ok_0@ == n && r->Ok_0.wf() && final(decoder).pos() == end,
                Err(e) => r == Err::<Name, DecodeError>(e),
            },
    {
        let ghost buf = decoder.buf();
        let ghost start = decoder.pos();
        let len = decoder.len();
        let mut pos: usize = decoder.index();
        let mut lo: usize = pos;
        let mut end: Option<usize> = None;
        let mut labels: Vec<Vec<u8>> = Vec::new();
        let mut total: usize = 1;
        assert((Name { labels })@ =~= Seq::<Seq<u8>>::empty());
        loop
            invariant
                buf == old(decoder).buf(),
                start == old(decoder).pos(),
                decoder.wf(),
                decoder.buf() == buf,
                len == buf.len(),
                pos <= len,
                lo <= len,
                total == wire((Name { labels })@).len(),
                total <= 255,
                forall|k: int| 0 <= k < labels@.len() ==> #[trigger] label_ok(labels@[k]@),
                end is Some ==> end->0 <= len,
                read_labels(buf, pos as int, lo as int, (Name { labels })@, match end { Some(e) => Some(e as int), None => None })
                    == read_labels(buf, start, start, Seq::empty(), None),
            decreases lo, len - pos,
        {
            let ghost acc = (Name { labels })@;
            let ghost gend: Option<int> = match end { Some(e) => Some(e as int), None => None };
            if pos >= len {
                return Err(DecodeError::InsufficientData);
            }
            let b = decoder.peek_at(pos);
            if b == 0 {
                let stop = match end { Some(e) => e, None => pos + 1 };
                decoder.seek(stop);
                let r = Name { labels };
                assert(valid_name(r@)) by {
                    assert forall|i: int| 0 <= i < r@.len() implies #[trigger] label_ok(r@[i]) by {
                        assert(label_ok(labels@[i]@));
                    }
                }
                return Ok(r);
            } else if b >= 192 {
                if pos + 1 >= len {
                    return Err(DecodeError::InsufficientData);
                }
                let lo_byte = decoder.peek_at(pos + 1);
                let target: usize = ((b - 192) as usize) * 256 + lo_byte as usize;
                if target >= lo {
                    return Err(DecodeError::BadPointer(target as u16));
                }
                if end.is_none() {
                    end = Some(pos + 2);
                }
                pos = target;
                lo = target;
            } else if b >= 64 {
                return Err(DecodeError::UnrecognizedLabelCode(b));
            } else {
                let n: usize = b as usize;
                if n > len - pos - 1 {
                    return Err(DecodeError::InsufficientData);
                }
                proof {
                    lemma_wire_push(acc, buf.subrange(pos + 1, pos + 1 + n));
                }
                if total + 1 + n > 255 {
                    return Err(DecodeError::DomainNameTooLong);
                }
                let mut l: Vec<u8> = Vec::new();
                let mut j: usize = 0;
                while j < n
                    invariant
                        decoder.buf() == buf,
                        len == buf.len(),
                        pos + 1 + n <= len,
                        j <= n,
                        l@ == buf.subrange(pos + 1, pos + 1 + j),
                    decreases n - j,
                {
                    l.push(decoder.peek_at(pos + 1 + j));
                    assert(l@ =~= buf.subrange(pos + 1, pos + 1 + j + 1));
                    j = j + 1;
                }
                let ghost lv = l@;
                labels.push(l);
                assert((Name { labels })@ =~= acc.push(lv));
                total = total + 1 + n;
                pos = pos + 1 + n;
            }
        }
    }
}


impl PartialEq for Name {
    fn eq(&self, other: &Name) -> (r: bool) {
        if self.labels.len() != other.labels.len() {
            assert(self@.len() != other@.len());
            return false;
        }
        let mut i: usize = 0;
        while i < self.labels.len()
            invariant
                self.labels@.len() == other.labels@.len(),
                i <= self.labels@.len(),
                forall|k: int| 0 <= k < i ==> self@[k] == other@[k],
            decreases self.labels@.len() - i,
        {
            let a = &self.labels[i];
            let b = &other.labels[i];
            if a.len() != b.len() {
                assert(self@[i as int].len() != other@[i as int].len());
                return false;
            }
            let mut j: usize = 0;
            while j < a.len()
                invariant
                    i < self.labels@.len(),
                    self.labels@.len() == other.labels@.len(),
                    a@ == self@[i as int],
                    b@ == other@[i as int],
                    a@.len() == b@.len(),
                    j <= a@.len(),
                    forall|k: int| 0 <= k < j ==> a@[k] == b@[k],
                decreases a@.len() - j,
            {
                if a[j] != b[j] {
                    assert(self@[i as int][j as int] != other@[i as int][j as int]);
                    return false;
                }
                j = j + 1;
            }
            assert(self@[i as int] =~= other@[i as int]);
            i = i + 1;
        }
        assert(self@ =~= other@);
        true
    }
}

impl vstd::std_specs::cmp::PartialEqSpecImpl for Name {
    open spec fn obeys_eq_spec() -> bool {
        true
    }

    open spec fn eq_spec(&self, other: &Name) -> bool {
        self@ == other@
    }
}

impl Eq for Name {

}


impl Name {
    /// The length of the name's uncompressed wire form.
    pub fn wire_len(&self) -> (r: usize)
        requires
            self.wf(),
        ensures
            r == wire(self@).len(),
    {
        let mut total: usize = 1;
        let mut i: usize = 0;
        while i < self.labels.len()
            invariant
                self.wf(),
                i <= self@.len(),
                total == wire(self@.subrange(0, i as int)).len(),
            decreases self@.len() - i,
        {
            proof {
                assert(self@.subrange(0, i + 1) =~= self@.subrange(0, i as int).push(self@[i as int]));
                lemma_wire_push(self@.subrange(0, i as int), self@[i as int]);
                lemma_prefix_wire_len(self@, i + 1);
            }
            total = total + 1 + self.labels[i].len();
            i = i + 1;
        }
        assert(self@.subrange(0, i as int) =~= self@);
        total
    }

    /// Appends the name's absolute text form to `out`.
    pub fn push_text(&self, out: &mut Vec<char>)
        ensures
            final(out)@ == old(out)@ + name_text(self@),
    {
        if self.labels.len() == 0 {
            out.push('.');
            return;
        }
        let mut i: usize = 0;
        while i < self.labels.len()
            invariant
                i <= self@.len(),
                out@ == old(out)@ + labels_text(self@.subrange(0, i as int)),
            decreases self@.len() - i,
        {
            let l = &self.labels[i];
            let ghost base = out@;
            let mut j: usize = 0;
            while j < l.len()
                invariant
                    j <= l@.len(),
                    out@ == base + label_text(l@.subrange(0, j as int)),
                decreases l@.len() - j,
            {
                let b = l[j];
                let ghost before = out@;
                if (b >= 48 && b <= 57) || (b >= 65 && b <= 90) || (b >= 97 && b <= 122) || b == 45 || b == 95 {
                    out.push(b as char);
                } else {
                    out.push('\\');
                    out.push(digit(b / 100));
                    out.push(digit(b / 10 % 10));
                    out.push(digit(b % 10));
                }
                assert(out@ =~= before + byte_text(b));
                assert(l@.subrange(0, j + 1).drop_last() =~= l@.subrange(0, j as int));
                j = j + 1;
            }
            out.push('.');
            assert(l@.subrange(0, j as int) =~= l@);
            assert(self@.subrange(0, i + 1).drop_last() =~= self@.subrange(0, i as int));
            i = i + 1;
        }
        assert(self@.subrange(0, i as int) =~= self@);
    }

    /// The name's absolute text form: `.` for the root, else each label and a dot.
    pub fn to_string(&self) -> (r: String)
        ensures
            r@ == name_text(self@),
    {
        let mut out: Vec<char> = Vec::new();
        self.push_text(&mut out);
        assert(out@ =~= name_text(self@));
        string_from_chars(&out)
    }

    /// Reads a name from zone-file text. Text without a final dot is relative and
    /// is completed with `origin`.
    pub fn parse(s: &str, origin: Option<&Name>) -> (r: Result<Name, NameTextError>)
        requires
            origin is Some ==> origin->0.wf(),
        ensures
            match parse_name_spec(s@, match origin { Some(o) => Some(o@), None => None }) {
                Ok(n) => r is Ok && r->Ok_0@ == n && r->Ok_0.wf(),
                Err(e) => r == Err::<Name, NameTextError>(e),
            },
    {
        let len = s.unicode_len();
        if len == 0 {
            return Err(NameTextError::Empty);
        }
        if len == 1 && s.get_char(0) == '.' {
            return Ok(Name::new());
        }
        let mut labels: Vec<Vec<u8>> = Vec::new();
        let mut cur: Vec<u8> = Vec::new();
        let mut total: usize = 1;
        let mut i: usize = 0;
        assert((Name { labels })@ =~= Seq::<Seq<u8>>::empty());
        while i < len
            invariant
                len == s@.len(),
                len > 0,
                !(len == 1 && s@[0] == '.'),
                i <= len,
                total == wire((Name { labels })@).len(),
                total <= 255,
                forall|k: int| 0 <= k < labels@.len() ==> #[trigger] label_ok(labels@[k]@),
                scan(s@, i as int, cur@, (Name { labels })@) == scan(s@, 0, Seq::empty(), Seq::empty()),
            decreases len - i,
        {
            let ghost acc = (Name { labels })@;
            let c = s.get_char(i);
            if c == '.' {
                if cur.len() == 0 {
                    return Err(NameTextError::EmptyLabel);
                }
                if cur.len() > 63 {
                    return Err(NameTextError::LabelTooLong);
                }
                proof {
                    lemma_wire_push(acc, cur@);
                }
                if total + 1 + cur.len() > 255 {
                    return Err(NameTextError::NameTooLong);
                }
                total = total + 1 + cur.len();
                let ghost cv = cur@;
                labels.push(cur);
                assert((Name { labels })@ =~= acc.push(cv));
                cur = Vec::new();
                assert(cur@ =~= Seq::<u8>::empty());
                i = i + 1;
            } else if c == '\\' {
                if i + 1 >= len {
                    return Err(NameTextError::BadCharacter);
                }
                let d = s.get_char(i + 1);
                if d >= '0' && d <= '9' {
                    if len - i <= 3 {
                        return Err(NameTextError::BadCharacter);
                    }
                    let d2 = s.get_char(i + 2);
                    let d3 = s.get_char(i + 3);
                    if d2 < '0' || d2 > '9' || d3 < '0' || d3 > '9' {
                        return Err(NameTextError::BadCharacter);
                    }
                    let v: u32 = ((d as u32) - 48) * 100 + ((d2 as u32) - 48) * 10 + ((d3 as u32) - 48);
                    assert(v == digit_value(d) * 100 + digit_value(d2) * 10 + digit_value(d3));
                    if v > 255 {
                        return Err(NameTextError::BadCharacter);
                    }
                    cur.push(v as u8);
                    i = i + 4;
                } else if (d as u32) < 128 {
                    cur.push((d as u32) as u8);
                    i = i + 2;
                } else {
                    return Err(NameTextError::BadCharacter);
                }
            } else if (c as u32) < 128 {
                cur.push((c as u32) as u8);
                i = i + 1;
            } else {
                return Err(NameTextError::BadCharacter);
            }
        }
        let ghost acc = (Name { labels })@;
        assert(scan(s@, i as int, cur@, acc) == Ok::<(Seq<Seq<u8>>, Seq<u8>), NameTextError>((acc, cur@)));
        if cur.len() == 0 {
            let r = Name { labels };
            assert(r.wf()) by {
                assert forall|k: int| 0 <= k < r@.len() implies #[trigger] label_ok(r@[k]) by {
                    assert(label_ok(labels@[k]@));
                }
            }
            return Ok(r);
        }
        if cur.len() > 63 {
            return Err(NameTextError::LabelTooLong);
        }
        proof {
            lemma_wire_push(acc, cur@);
        }
        if total + 1 + cur.len() > 255 {
            return Err(NameTextError::NameTooLong);
        }
        let o = match origin {
            None => return Err(NameTextError::RelativeWithoutOrigin),
            Some(o) => o,
        };
        let olen = o.wire_len();
        let ghost cv = cur@;
        let ghost first = acc.push(cv);
        proof {
            lemma_labels_wire_concat(first, o@);
        }
        if total + 1 + cur.len() + olen - 1 > 255 {
            return Err(NameTextError::NameTooLong);
        }
        labels.push(cur);
        assert((Name { labels })@ =~= first);
        let mut k: usize = 0;
        while k < o.labels.len()
            invariant
                o.wf(),
                k <= o@.len(),
                (Name { labels })@ == first + o@.subrange(0, k as int),
            decreases o@.len() - k,
        {
            let ghost before = (Name { labels })@;
            let lc = o.labels[k].clone();
            assert(lc@ =~= o@[k as int]);
            let ghost lv = labels@;
            labels.push(lc);
            assert(labels@ == lv.push(lc));
            assert((Name { labels })@ =~= before.push(o@[k as int]));
            assert(o@.subrange(0, k + 1) =~= o@.subrange(0, k as int).push(o@[k as int]));
            assert((Name { labels })@ =~= first + o@.subrange(0, k + 1));
            k = k + 1;
        }
        assert(o@.subrange(0, k as int) =~= o@);
        let r = Name { labels };
        assert(r@ == first + o@);
        assert(r.wf()) by {
            assert forall|j: int| 0 <= j < r@.len() implies #[trigger] label_ok(r@[j]) by {
                if j < first.len() {
                    if j < acc.len() {
                        assert(label_ok(acc[j]));
                    }
                } else {
                    assert(r@[j] == o@[j - first.len()]);
                }
            }
        }
        Ok(r)
    }
}

} // verus!

//! Write commands and their binary format.

use vstd::prelude::*;
use crate::codec::{
    get_bytes, get_u32, get_u64, le32, le64, lemma_le32_len, lemma_le64_len, lemma_u32_roundtrip,
    lemma_u64_roundtrip, lemma_utf8_roundtrip, put_bytes, put_u32, put_u64, str_from_utf8, u32_at,
    u64_at, utf8,
};
use crate::map::{AHashMap, MAX_ENTRIES};
use crate::column::MultiVectorPointer;
use std::sync::Arc;
use vstd::slice::slice_to_vec;
use vstd::utf8::{decode_utf8, valid_utf8};

verus! {

/// Largest input the decoders accept: every decoded entry takes at least
/// eight bytes, so no decoded map can outgrow [`MAX_ENTRIES`].
pub const MAX_INPUT: usize = usize::MAX / 8;

/// What reading a framed value at some position gives: the value and the
/// position after it, a clean failure at a position (the reader returns
/// `None`), or a failure on which the reader panics.
pub enum Parsed<T> {
    Done(T, int),
    Short(int),
    Panic,
}

/// A value that an attribute map can hold, with its framing.
pub trait AttrValue: View + Sized {
    /// The bytes that encode a value.
    spec fn spec_encode(v: Self::V) -> Seq<u8>;

    /// What the value reader gives at `pos`: the value and the position after
    /// it, or `None` where it panics.
    spec fn spec_decode(buf: Seq<u8>, pos: int) -> Option<(Self::V, int)>;

    /// Whether the value's length fits its 32-bit length prefix.
    spec fn encodable(v: Self::V) -> bool;

    fn encode_value(&self, buf: &mut Vec<u8>)
        ensures
            final(buf)@ == old(buf)@ + Self::spec_encode(self@),
    ;

    fn decode_value(buf: &[u8], pos: &mut usize) -> (v: Self)
        requires
            *old(pos) <= buf@.len(),
            buf@.len() <= MAX_INPUT,
            Self::spec_decode(buf@, *old(pos) as int) is Some,
        ensures
            Self::spec_decode(buf@, *old(pos) as int) == Some((v@, *final(pos) as int)),
            *old(pos) + 4 <= *final(pos) <= buf@.len(),
    ;

    /// Whether a well-formed value stands at `pos`.
    fn value_fits(buf: &[u8], pos: usize) -> (b: bool)
        requires
            pos <= buf@.len(),
        ensures
            b == Self::spec_decode(buf@, pos as int) is Some,
    ;

    proof fn lemma_value_roundtrip(v: Self::V, p: Seq<u8>, q: Seq<u8>)
        requires
            Self::encodable(v),
        ensures
            Self::spec_decode(p + Self::spec_encode(v) + q, p.len() as int) == Some(
                (v, p.len() + Self::spec_encode(v).len() as int),
            ),
    ;
}

/// Reading back a `u32` length prefix followed by `body`.
proof fn lemma_prefixed(p: Seq<u8>, body: Seq<u8>, q: Seq<u8>)
    requires
        body.len() <= u32::MAX,
    ensures
        ({
            let buf = p + (le32(body.len() as u32) + body) + q;
            &&& u32_at(buf, p.len() as int) == body.len()
            &&& buf.subrange(p.len() + 4int, p.len() + 4int + body.len()) == body
            &&& p.len() + 4 + body.len() <= buf.len()
        }),
{
    lemma_le32_len(body.len() as u32);
    let buf = p + (le32(body.len() as u32) + body) + q;
    assert(buf =~= p + le32(body.len() as u32) + (body + q));
    lemma_u32_roundtrip(p, body.len() as u32, body + q);
    assert(buf.subrange(p.len() + 4int, p.len() + 4int + body.len()) =~= body);
}

impl AttrValue for String {
    open spec fn spec_encode(v: Seq<char>) -> Seq<u8> {
        le32(utf8(v).len() as u32) + utf8(v)
    }

    open spec fn spec_decode(buf: Seq<u8>, pos: int) -> Option<(Seq<char>, int)> {
        if pos + 4 <= buf.len() {
            let n = u32_at(buf, pos);
            let body = buf.subrange(pos + 4, pos + 4 + n);
            if pos + 4 + n <= buf.len() && valid_utf8(body) {
                Some((decode_utf8(body), pos + 4 + n))
            } else {
                None
            }
        } else {
            None
        }
    }

    open spec fn encodable(v: Seq<char>) -> bool {
        utf8(v).len() <= u32::MAX
    }

    fn encode_value(&self, buf: &mut Vec<u8>) {
        let bytes = self.as_str().as_bytes();
        put_u32(buf, bytes.len() as u32);
        put_bytes(buf, bytes);
        assert(buf@ =~= old(buf)@ + Self::spec_encode(self@));
    }

    fn decode_value(buf: &[u8], pos: &mut usize) -> (v: Self) {
        let len = get_u32(buf, *pos).unwrap() as usize;
        *pos = *pos + 4;
        let s = str_from_utf8(get_bytes(buf, *pos, len).unwrap()).unwrap().to_owned();
        *pos = *pos + len;
        s
    }

    fn value_fits(buf: &[u8], pos: usize) -> (b: bool) {
        let blen = buf.len();
        match get_u32(buf, pos) {
            Some(n) => match get_bytes(buf, pos + 4, n as usize) {
                Some(body) => str_from_utf8(body).is_some(),
                None => false,
            },
            None => false,
        }
    }

    proof fn lemma_value_roundtrip(v: Seq<char>, p: Seq<u8>, q: Seq<u8>) {
        lemma_prefixed(p, utf8(v), q);
        lemma_utf8_roundtrip(v);
        lemma_le32_len(utf8(v).len() as u32);
    }
}

impl AttrValue for u32 {
    open spec fn spec_encode(v: u32) -> Seq<u8> {
        le32(v)
    }

    open spec fn spec_decode(buf: Seq<u8>, pos: int) -> Option<(u32, int)> {
        if pos + 4 <= buf.len() {
            Some((u32_at(buf, pos), pos + 4))
        } else {
            None
        }
    }

    open spec fn encodable(v: u32) -> bool {
        true
    }

    fn encode_value(&self, buf: &mut Vec<u8>) {
        put_u32(buf, *self);
    }

    fn decode_value(buf: &[u8], pos: &mut usize) -> (v: Self) {
        let v = get_u32(buf, *pos).unwrap();
        *pos = *pos + 4;
        v
    }

    fn value_fits(buf: &[u8], pos: usize) -> (b: bool) {
        get_u32(buf, pos).is_some()
    }

    proof fn lemma_value_roundtrip(v: u32, p: Seq<u8>, q: Seq<u8>) {
        lemma_u32_roundtrip(p, v, q);
        lemma_le32_len(v);
    }
}

impl AttrValue for Vec<u8> {
    open spec fn spec_encode(v: Seq<u8>) -> Seq<u8> {
        le32(v.len() as u32) + v
    }

    open spec fn spec_decode(buf: Seq<u8>, pos: int) -> Option<(Seq<u8>, int)> {
        if pos + 4 <= buf.len() {
            let n = u32_at(buf, pos);
            if pos + 4 + n <= buf.len() {
                Some((buf.subrange(pos + 4, pos + 4 + n), pos + 4 + n))
            } else {
                None
            }
        } else {
            None
        }
    }

    open spec fn encodable(v: Seq<u8>) -> bool {
        v.len() <= u32::MAX
    }

    fn encode_value(&self, buf: &mut Vec<u8>) {
        put_u32(buf, self.len() as u32);
        put_bytes(buf, self.as_slice());
        assert(buf@ =~= old(buf)@ + Self::spec_encode(self@));
    }

    fn decode_value(buf: &[u8], pos: &mut usize) -> (v: Self) {
        let len = get_u32(buf, *pos).unwrap() as usize;
        *pos = *pos + 4;
        let v = slice_to_vec(get_bytes(buf, *pos, len).unwrap());
        *pos = *pos + len;
        v
    }

    fn value_fits(buf: &[u8], pos: usize) -> (b: bool) {
        let blen = buf.len();
        match get_u32(buf, pos) {
            Some(n) => get_bytes(buf, pos + 4, n as usize).is_some(),
            None => false,
        }
    }

    proof fn lemma_value_roundtrip(v: Seq<u8>, p: Seq<u8>, q: Seq<u8>) {
        lemma_prefixed(p, v, q);
        lemma_le32_len(v.len() as u32);
    }
}

/// The bytes of one entry: the key's UTF-8 length, its bytes, the value.
pub open spec fn enc_entry<V: AttrValue>(k: Seq<char>, v: V::V) -> Seq<u8> {
    le32(utf8(k).len() as u32) + utf8(k) + V::spec_encode(v)
}

/// The bytes of `es`, one entry after the other.
pub open spec fn enc_entries<V: AttrValue>(es: Seq<(Seq<char>, V::V)>) -> Seq<u8>
    decreases es.len(),
{
    if es.len() == 0 {
        Seq::empty()
    } else {
        enc_entries::<V>(es.drop_last()) + enc_entry::<V>(es.last().0, es.last().1)
    }
}

/// The bytes of an attribute map listed as `es`: its entry count, then the
/// entries.
pub open spec fn enc_attrs<V: AttrValue>(count: nat, es: Seq<(Seq<char>, V::V)>) -> Seq<u8> {
    le32(count as u32) + enc_entries::<V>(es)
}

/// `es` lists the entries of `m`, each key once.
pub open spec fn is_listing<VV>(m: Map<Seq<char>, VV>, es: Seq<(Seq<char>, VV)>) -> bool {
    &&& forall|j: int| 0 <= j < es.len() ==> m.contains_key((#[trigger] es[j]).0) && m[es[j].0] == es[j].1
    &&& forall|k: Seq<char>| #[trigger] m.contains_key(k) ==> exists|j: int| 0 <= j < es.len() && (#[trigger] es[j]).0 == k
    &&& forall|j1: int, j2: int| 0 <= j1 < j2 < es.len() ==> (#[trigger] es[j1]).0 != (#[trigger] es[j2]).0
}

/// The map that inserting `es` in order builds.
pub open spec fn build_view<VV>(es: Seq<(Seq<char>, VV)>) -> Map<Seq<char>, VV>
    decreases es.len(),
{
    if es.len() == 0 {
        Map::empty()
    } else {
        build_view(es.drop_last()).insert(es.last().0, es.last().1)
    }
}

/// Reading one entry at `p` after the entries `es`.
pub open spec fn parse_one<V: AttrValue>(buf: Seq<u8>, p: int, es: Seq<(Seq<char>, V::V)>) -> Parsed<Seq<(Seq<char>, V::V)>> {
    if p + 4 > buf.len() {
        Parsed::Short(p)
    } else {
        let kl = u32_at(buf, p);
        let p1 = p + 4;
        if p1 + kl > buf.len() || !valid_utf8(buf.subrange(p1, p1 + kl)) {
            Parsed::Short(p1)
        } else {
            match V::spec_decode(buf, p1 + kl) {
                None => Parsed::Panic,
                Some((v, p3)) => Parsed::Done(es.push((decode_utf8(buf.subrange(p1, p1 + kl)), v)), p3),
            }
        }
    }
}

/// Reading `count` entries from `pos`.
pub open spec fn parse_entries<V: AttrValue>(buf: Seq<u8>, pos: int, count: nat) -> Parsed<Seq<(Seq<char>, V::V)>>
    decreases count,
{
    if count == 0 {
        Parsed::Done(Seq::empty(), pos)
    } else {
        match parse_entries::<V>(buf, pos, (count - 1) as nat) {
            Parsed::Done(es, p) => parse_one::<V>(buf, p, es),
            Parsed::Short(p) => Parsed::Short(p),
            Parsed::Panic => Parsed::Panic,
        }
    }
}

/// Reading an attribute map at `pos`: its entry count, then the entries.
pub open spec fn parse_attrs<V: AttrValue>(buf: Seq<u8>, pos: int) -> Parsed<Seq<(Seq<char>, V::V)>> {
    if pos + 4 > buf.len() {
        Parsed::Short(pos)
    } else {
        parse_entries::<V>(buf, pos + 4, u32_at(buf, pos) as nat)
    }
}

/// Attribute values of one entity, by attribute name.
pub struct Attributes<V>(AHashMap<String, V>);

impl<V: View> Attributes<V> {
    /// The attribute map, values by their views.
    pub closed spec fn view(&self) -> Map<Seq<char>, V::V> {
        self.0@.map_values(|v: V| v@)
    }

    pub closed spec fn wf(&self) -> bool {
        self.0.wf()
    }

    /// The underlying map.
    pub closed spec fn map(&self) -> AHashMap<String, V> {
        self.0
    }

    /// No attribute.
    pub fn new() -> (a: Self)
        ensures
            a.wf(),
            a.view() == Map::<Seq<char>, V::V>::empty(),
    {
        let a = Attributes(AHashMap::new());
        assert(a.view() =~= Map::<Seq<char>, V::V>::empty());
        a
    }

    /// Sets attribute `key` to `value`.
    pub fn insert(&mut self, key: String, value: V)
        requires
            old(self).wf(),
            old(self).view().len() < MAX_ENTRIES,
        ensures
            final(self).wf(),
            final(self).view() == old(self).view().insert(key@, value@),
    {
        proof {
            assert(self.view().dom() =~= self.0@.dom());
        }
        self.0.insert(key, value);
        assert(self.view() =~= old(self).view().insert(key@, value@));
    }

    /// The value of attribute `key`.
    pub fn get(&self, key: &str) -> (r: Option<&V>)
        requires
            self.wf(),
        ensures
            match r {
                Some(v) => self.view().contains_key(key@) && self.view()[key@] == v@,
                None => !self.view().contains_key(key@),
            },
    {
        let k = key.to_owned();
        self.0.get(&k)
    }

    /// The map of attributes.
    pub fn inner(&self) -> (m: &AHashMap<String, V>)
        ensures
            *m == self.map(),
    {
        &self.0
    }

    /// Number of attributes.
    pub fn len(&self) -> (n: usize)
        requires
            self.wf(),
        ensures
            n == self.view().len(),
    {
        proof {
            assert(self.view().dom() =~= self.0@.dom());
        }
        self.0.len()
    }

    /// Whether there is no attribute.
    pub fn is_empty(&self) -> (b: bool)
        requires
            self.wf(),
        ensures
            b == (self.view().len() == 0),
    {
        proof {
            assert(self.view().dom() =~= self.0@.dom());
        }
        self.0.is_empty()
    }

    /// Wraps a map of attributes.
    pub fn from_map(map: AHashMap<String, V>) -> (a: Self)
        ensures
            a.map() == map,
    {
        Attributes(map)
    }

    /// Consumes the attributes into their entries, each name once.
    pub fn into_entries(self) -> (r: Vec<(String, V)>)
        requires
            self.wf(),
        ensures
            is_listing(self.view(), Seq::new(r@.len(), |j: int| (r@[j].0@, r@[j].1@))),
            r@.len() == self.view().len(),
            forall|j: int| 0 <= j < r@.len() ==> self.view().contains_key((#[trigger] r@[j]).0@) && self.view()[r@[j].0@] == r@[j].1@,
            forall|k: Seq<char>| #[trigger] self.view().contains_key(k) ==> exists|j: int| 0 <= j < r@.len() && (#[trigger] r@[j]).0@ == k,
            forall|j1: int, j2: int| 0 <= j1 < j2 < r@.len() ==> (#[trigger] r@[j1]).0@ != (#[trigger] r@[j2]).0@,
    {
        let ghost m = self.view();
        let ghost inner = self.0@;
        let r = self.0.into_entries();
        proof {
            let es = Seq::new(r@.len(), |j: int| (r@[j].0@, r@[j].1@));
            assert forall|k: Seq<char>| #[trigger] m.contains_key(k) implies exists|j: int|
                0 <= j < es.len() && (#[trigger] es[j]).0 == k by {
                let j = choose|j: int| 0 <= j < r@.len() && (#[trigger] r@[j]).0@ == k;
                assert(es[j].0 == k);
            }
            assert forall|j1: int, j2: int| 0 <= j1 < j2 < es.len() implies (#[trigger] es[j1]).0
                != (#[trigger] es[j2]).0 by {
                assert(r@[j1].0@ != r@[j2].0@);
            }
            lemma_listing_builds(m, es);
            assert forall|j: int| 0 <= j < r@.len() implies m.contains_key((#[trigger] r@[j]).0@) && m[r@[j].0@]
                == r@[j].1@ by {
                assert(es[j].0 == r@[j].0@);
            }
            assert forall|k: Seq<char>| #[trigger] m.contains_key(k) implies exists|j: int| 0 <= j < r@.len()
                && (#[trigger] r@[j]).0@ == k by {
                let j = choose|j: int| 0 <= j < es.len() && (#[trigger] es[j]).0 == k;
                assert(r@[j].0@ == k);
            }
            assert forall|j1: int, j2: int| 0 <= j1 < j2 < r@.len() implies (#[trigger] r@[j1]).0@
                != (#[trigger] r@[j2]).0@ by {
                assert(es[j1].0 != es[j2].0);
            }
        }
        r
    }
}

impl<V: AttrValue> Attributes<V> {
    /// The entries in the order the map iterates them, values by their
    /// views.
    pub closed spec fn order(&self) -> Seq<(Seq<char>, V::V)> {
        self.0.slot_order().map_values(|e: (Seq<char>, V)| (e.0, e.1@))
    }

    /// Appends the attribute map: its entry count as four little-endian bytes,
    /// then per entry, in the map's iteration order, the key's byte length,
    /// the key's bytes and the value.
    pub fn encode_to(&self, buf: &mut Vec<u8>)
        requires
            self.wf(),
        ensures
            is_listing(self.view(), self.order()),
            final(buf)@ == old(buf)@ + enc_attrs::<V>(self.view().len(), self.order()),
            exists|es: Seq<(Seq<char>, V::V)>|
                is_listing(self.view(), es) && final(buf)@ == old(buf)@ + enc_attrs::<V>(
                    self.view().len(),
                    es,
                ),
    {
        proof {
            assert(self.view().dom() =~= self.0@.dom());
        }
        put_u32(buf, self.0.len() as u32);
        let entries = self.0.iter();
        let ghost es = Seq::new(entries@.len(), |j: int| (entries@[j].0@, entries@[j].1@));
        let ghost start = buf@;
        let mut i: usize = 0;
        while i < entries.len()
            invariant
                i <= entries@.len(),
                es == Seq::new(entries@.len(), |j: int| (entries@[j].0@, entries@[j].1@)),
                buf@ == start + enc_entries::<V>(es.take(i as int)),
            decreases entries@.len() - i,
        {
            let (k, v) = entries[i];
            let kb = k.as_str().as_bytes();
            put_u32(buf, kb.len() as u32);
            put_bytes(buf, kb);
            v.encode_value(buf);
            proof {
                assert(es.take(i + 1).drop_last() =~= es.take(i as int));
                assert(buf@ =~= start + enc_entries::<V>(es.take(i + 1)));
            }
            i = i + 1;
        }
        proof {
            assert(es.take(es.len() as int) =~= es);
            assert forall|j: int| 0 <= j < es.len() implies self.view().contains_key(
                (#[trigger] es[j]).0,
            ) && self.view()[es[j].0] == es[j].1 by {
                assert(self.0@.contains_key(entries@[j].0@));
            }
            assert forall|k: Seq<char>| #[trigger] self.view().contains_key(k) implies exists|j: int|
                0 <= j < es.len() && (#[trigger] es[j]).0 == k by {
                assert(self.0@.contains_key(k));
                let j = choose|j: int| 0 <= j < entries@.len() && (#[trigger] entries@[j]).0@ == k;
                assert(es[j].0 == k);
            }
            assert forall|j1: int, j2: int| 0 <= j1 < j2 < es.len() implies (#[trigger] es[j1]).0
                != (#[trigger] es[j2]).0 by {
                assert(entries@[j1].0@ != entries@[j2].0@);
            }
            assert(is_listing(self.view(), es));
            assert(buf@ =~= old(buf)@ + enc_attrs::<V>(self.view().len(), es));
            assert(es =~= self.order());
        }
    }

    /// Reads an attribute map at `*pos`, advancing `*pos` past what was
    /// read. Returns `None` when the count, a key's length or a key's bytes
    /// are missing, a key is not UTF-8 or a value is malformed.
    pub fn decode_from(buf: &[u8], pos: &mut usize) -> (r: Option<Self>)
        requires
            *old(pos) <= buf@.len(),
            buf@.len() <= MAX_INPUT,
        ensures
            match parse_attrs::<V>(buf@, *old(pos) as int) {
                Parsed::Done(es, end) => {
                    &&& r matches Some(a)
                    &&& a.wf()
                    &&& a.view() == build_view(es)
                    &&& *final(pos) == end
                    &&& *final(pos) <= buf@.len()
                },
                Parsed::Short(end) => r is None && *final(pos) == end,
                Parsed::Panic => r is None,
            },
    {
        let ghost start = *pos as int;
        let count = match get_u32(buf, *pos) {
            Some(c) => c as usize,
            None => return None,
        };
        *pos = *pos + 4;
        let mut map: AHashMap<String, V> = if count <= MAX_ENTRIES {
            AHashMap::with_capacity(count)
        } else {
            AHashMap::new()
        };
        let ghost mut es: Seq<(Seq<char>, V::V)> = Seq::empty();
        let mut i: usize = 0;
        while i < count
            invariant
                start == *old(pos) as int,
                start + 4 <= buf@.len(),
                count == u32_at(buf@, start) as nat,
                buf@.len() <= MAX_INPUT,
                parse_attrs::<V>(buf@, start) == parse_entries::<V>(buf@, start + 4, count as nat),
                i <= count,
                parse_entries::<V>(buf@, start + 4, i as nat) == Parsed::Done(es, *pos as int),
                start + 4 + 8 * i <= *pos <= buf@.len(),
                map.wf(),
                map@.map_values(|v: V| v@) == build_view(es),
                map@.len() <= i,
            decreases count - i,
        {
            proof {
                assert(parse_entries::<V>(buf@, start + 4, (i + 1) as nat) == parse_one::<V>(
                    buf@,
                    *pos as int,
                    es,
                ));
            }
            let k_len = match get_u32(buf, *pos) {
                Some(l) => l as usize,
                None => {
                    proof {
                        Self::lemma_short_stays(buf@, start + 4, (i + 1) as nat, count as nat);
                    }
                    return None;
                },
            };
            *pos = *pos + 4;
            let kbytes = match get_bytes(buf, *pos, k_len) {
                Some(b) => b,
                None => {
                    proof {
                        Self::lemma_short_stays(buf@, start + 4, (i + 1) as nat, count as nat);
                    }
                    return None;
                },
            };
            let k = match str_from_utf8(kbytes) {
                Some(s) => s.to_owned(),
                None => {
                    proof {
                        Self::lemma_short_stays(buf@, start + 4, (i + 1) as nat, count as nat);
                    }
                    return None;
                },
            };
            *pos = *pos + k_len;
            if !V::value_fits(buf, *pos) {
                proof {
                    Self::lemma_panic_stays(buf@, start + 4, (i + 1) as nat, count as nat);
                }
                return None;
            }
            let v = V::decode_value(buf, pos);
            let ghost prev = map@;
            proof {
                assert(map@.dom() =~= map@.map_values(|v: V| v@).dom());
                map.lemma_finite();
            }
            map.insert(k, v);
            proof {
                let old_es = es;
                es = es.push((k@, v@));
                assert(es.drop_last() =~= old_es);
                assert(map@.map_values(|v: V| v@) =~= prev.map_values(|v: V| v@).insert(k@, v@));
                assert(map@.dom() =~= prev.dom().insert(k@));
            }
            i = i + 1;
        }
        let a = Attributes(map);
        proof {
            assert(a.view() =~= build_view(es));
        }
        Some(a)
    }

    /// Once reading panics, reading more entries panics as well.
    proof fn lemma_panic_stays(buf: Seq<u8>, pos: int, i: nat, n: nat)
        requires
            i <= n,
            parse_entries::<V>(buf, pos, i) is Panic,
        ensures
            parse_entries::<V>(buf, pos, n) is Panic,
        decreases n - i,
    {
        if i < n {
            Self::lemma_panic_stays(buf, pos, (i + 1) as nat, n);
        }
    }

    /// Once reading stops short, reading more entries stops short as well.
    proof fn lemma_short_stays(buf: Seq<u8>, pos: int, i: nat, n: nat)
        requires
            i <= n,
            parse_entries::<V>(buf, pos, i) is Short,
        ensures
            parse_entries::<V>(buf, pos, n) == parse_entries::<V>(buf, pos, i),
        decreases n - i,
    {
        if i < n {
            Self::lemma_short_stays(buf, pos, (i + 1) as nat, n);
        }
    }
}

/// The encoding of two listings one after the other.
pub proof fn lemma_enc_entries_concat<V: AttrValue>(a: Seq<(Seq<char>, V::V)>, b: Seq<(Seq<char>, V::V)>)
    ensures
        enc_entries::<V>(a + b) == enc_entries::<V>(a) + enc_entries::<V>(b),
    decreases b.len(),
{
    if b.len() == 0 {
        assert(a + b =~= a);
        assert(enc_entries::<V>(a) + enc_entries::<V>(b) =~= enc_entries::<V>(a));
    } else {
        lemma_enc_entries_concat::<V>(a, b.drop_last());
        assert((a + b).drop_last() =~= a + b.drop_last());
        assert(enc_entries::<V>(a + b) =~= enc_entries::<V>(a) + enc_entries::<V>(b));
    }
}

/// Reading one encoded entry back.
pub proof fn lemma_entry_roundtrip<V: AttrValue>(
    k: Seq<char>,
    v: V::V,
    pre: Seq<u8>,
    post: Seq<u8>,
    es: Seq<(Seq<char>, V::V)>,
)
    requires
        utf8(k).len() <= u32::MAX,
        V::encodable(v),
    ensures
        parse_one::<V>(pre + enc_entry::<V>(k, v) + post, pre.len() as int, es) == Parsed::Done(
            es.push((k, v)),
            (pre.len() + enc_entry::<V>(k, v).len()) as int,
        ),
{
    let kb = utf8(k);
    let buf = pre + enc_entry::<V>(k, v) + post;
    lemma_le32_len(kb.len() as u32);
    assert(buf =~= pre + le32(kb.len() as u32) + (kb + V::spec_encode(v) + post));
    lemma_u32_roundtrip(pre, kb.len() as u32, kb + V::spec_encode(v) + post);
    let p1 = pre.len() + 4;
    assert(buf.subrange(p1 as int, p1 + kb.len() as int) =~= kb);
    lemma_utf8_roundtrip(k);
    assert(buf =~= (pre + le32(kb.len() as u32) + kb) + V::spec_encode(v) + post);
    V::lemma_value_roundtrip(v, pre + le32(kb.len() as u32) + kb, post);
}

/// The keys of `es` fit their length prefixes and its values are encodable.
pub open spec fn entries_encodable<V: AttrValue>(es: Seq<(Seq<char>, V::V)>) -> bool {
    forall|j: int| 0 <= j < es.len() ==> utf8((#[trigger] es[j]).0).len() <= u32::MAX && V::encodable(es[j].1)
}

proof fn lemma_entries_prefix<V: AttrValue>(es: Seq<(Seq<char>, V::V)>, pre: Seq<u8>, post: Seq<u8>, k: nat)
    requires
        k <= es.len(),
        entries_encodable::<V>(es),
    ensures
        parse_entries::<V>(pre + enc_entries::<V>(es) + post, pre.len() as int, k) == Parsed::Done(
            es.take(k as int),
            (pre.len() + enc_entries::<V>(es.take(k as int)).len()) as int,
        ),
    decreases k,
{
    let buf = pre + enc_entries::<V>(es) + post;
    if k == 0 {
        assert(es.take(0) =~= Seq::<(Seq<char>, V::V)>::empty());
    } else {
        lemma_entries_prefix::<V>(es, pre, post, (k - 1) as nat);
        let a = es.take(k - 1);
        let e = es[k - 1];
        let b = es.skip(k as int);
        assert(es =~= a + seq![e] + b);
        lemma_enc_entries_concat::<V>(a + seq![e], b);
        lemma_enc_entries_concat::<V>(a, seq![e]);
        assert(seq![e].drop_last() =~= Seq::<(Seq<char>, V::V)>::empty());
        assert(enc_entries::<V>(Seq::<(Seq<char>, V::V)>::empty()) =~= Seq::<u8>::empty());
        assert(seq![e].last() == e);
        assert(enc_entries::<V>(seq![e]) =~= enc_entry::<V>(e.0, e.1));
        assert(buf =~= (pre + enc_entries::<V>(a)) + enc_entry::<V>(e.0, e.1) + (enc_entries::<V>(b) + post));
        lemma_entry_roundtrip::<V>(e.0, e.1, pre + enc_entries::<V>(a), enc_entries::<V>(b) + post, a);
        assert(a.push(e) =~= es.take(k as int));
        assert(es.take(k as int) =~= a + seq![e]);
    }
}

/// Decoding what `encode_to` writes for a listing gives the same listing
/// back, wherever it stands in the buffer.
pub proof fn lemma_attrs_roundtrip<V: AttrValue>(es: Seq<(Seq<char>, V::V)>, p: Seq<u8>, q: Seq<u8>)
    requires
        es.len() <= u32::MAX,
        entries_encodable::<V>(es),
    ensures
        parse_attrs::<V>(p + enc_attrs::<V>(es.len(), es) + q, p.len() as int) == Parsed::Done(
            es,
            (p.len() + enc_attrs::<V>(es.len(), es).len()) as int,
        ),
{
    let n = es.len() as u32;
    lemma_le32_len(n);
    let buf = p + enc_attrs::<V>(es.len(), es) + q;
    assert(buf =~= p + le32(n) + (enc_entries::<V>(es) + q));
    lemma_u32_roundtrip(p, n, enc_entries::<V>(es) + q);
    assert(buf =~= (p + le32(n)) + enc_entries::<V>(es) + q);
    lemma_entries_prefix::<V>(es, p + le32(n), q, es.len());
    assert(es.take(es.len() as int) =~= es);
}

/// A listing of `m` rebuilds `m`.
pub proof fn lemma_listing_builds<VV>(m: Map<Seq<char>, VV>, es: Seq<(Seq<char>, VV)>)
    requires
        is_listing(m, es),
    ensures
        build_view(es) == m,
        m.dom().finite(),
        m.len() == es.len(),
    decreases es.len(),
{
    if es.len() == 0 {
        assert(m.dom() =~= Set::<Seq<char>>::empty());
        assert(m =~= Map::<Seq<char>, VV>::empty());
    } else {
        let last = es.last();
        let rest = es.drop_last();
        let m0 = m.remove(last.0);
        assert(m.contains_key(es[es.len() - 1].0));
        assert forall|k: Seq<char>| #[trigger] m0.contains_key(k) implies exists|j: int|
            0 <= j < rest.len() && (#[trigger] rest[j]).0 == k by {
            let j = choose|j: int| 0 <= j < es.len() && (#[trigger] es[j]).0 == k;
            assert(j != es.len() - 1);
            assert(rest[j].0 == k);
        }
        assert forall|j: int| 0 <= j < rest.len() implies m0.contains_key((#[trigger] rest[j]).0)
            && m0[rest[j].0] == rest[j].1 by {
            assert(es[j] == rest[j]);
            assert(es[j].0 != es[es.len() - 1].0);
        }
        assert forall|j1: int, j2: int| 0 <= j1 < j2 < rest.len() implies (#[trigger] rest[j1]).0
            != (#[trigger] rest[j2]).0 by {
            assert(es[j1] == rest[j1]);
            assert(es[j2] == rest[j2]);
        }
        lemma_listing_builds(m0, rest);
        assert(m =~= m0.insert(last.0, last.1));
        assert(m.dom() =~= m0.dom().insert(last.0));
    }
}

/// A value of one of the three column types.
pub enum ColumnValue {
    Str(String),
    Int(u32),
    Blob(Vec<u8>),
}

/// The string, integer and blob attribute maps of one entity.
pub type AttrsView = (Map<Seq<char>, Seq<char>>, Map<Seq<char>, u32>, Map<Seq<char>, Seq<u8>>);

/// What a write command says, by value.
pub enum CommandView {
    Insert { entity_id: usize, attrs: AttrsView },
    BatchInsert(Seq<(usize, AttrsView)>),
    Delete { entity_id: usize },
    InsertFast { entity_id: usize, epoch: u32, record_type: u32, payload: Seq<u8> },
}

/// A write sent to a partition and logged in the write-ahead log.
pub enum WriteCommand {
    Insert {
        entity_id: usize,
        attributes: Attributes<String>,
        attributes_int: Attributes<u32>,
        attributes_blob: Attributes<Vec<u8>>,
    },
    BatchInsert(Vec<(usize, Attributes<String>, Attributes<u32>, Attributes<Vec<u8>>)>),
    Delete { entity_id: usize },
    InsertFast { entity_id: usize, epoch: u32, record_type: u32, payload: Arc<Vec<u8>> },
}

/// The attribute maps of a batch item.
pub open spec fn item_view(it: (usize, Attributes<String>, Attributes<u32>, Attributes<Vec<u8>>)) -> (usize, AttrsView) {
    (it.0, (it.1.view(), it.2.view(), it.3.view()))
}

pub open spec fn item_wf(it: (usize, Attributes<String>, Attributes<u32>, Attributes<Vec<u8>>)) -> bool {
    it.1.wf() && it.2.wf() && it.3.wf()
}

impl WriteCommand {
    pub open spec fn view(&self) -> CommandView {
        match self {
            WriteCommand::Insert { entity_id, attributes, attributes_int, attributes_blob } => CommandView::Insert {
                entity_id: *entity_id,
                attrs: (attributes.view(), attributes_int.view(), attributes_blob.view()),
            },
            WriteCommand::BatchInsert(items) => CommandView::BatchInsert(items@.map_values(|it| item_view(it))),
            WriteCommand::Delete { entity_id } => CommandView::Delete { entity_id: *entity_id },
            WriteCommand::InsertFast { entity_id, epoch, record_type, payload } => CommandView::InsertFast {
                entity_id: *entity_id,
                epoch: *epoch,
                record_type: *record_type,
                payload: payload@,
            },
        }
    }

    /// The attribute maps of the command are well formed.
    pub open spec fn wf(&self) -> bool {
        match self {
            WriteCommand::Insert { attributes, attributes_int, attributes_blob, .. } => attributes.wf()
                && attributes_int.wf() && attributes_blob.wf(),
            WriteCommand::BatchInsert(items) => forall|i: int| 0 <= i < items@.len() ==> item_wf(#[trigger] items@[i]),
            _ => true,
        }
    }
}

/// The byte strings of `parts`, one after the other.
pub open spec fn concat_all(parts: Seq<Seq<u8>>) -> Seq<u8>
    decreases parts.len(),
{
    if parts.len() == 0 {
        Seq::empty()
    } else {
        concat_all(parts.drop_last()) + parts.last()
    }
}

/// `bytes` is an encoding of one entity: its id as eight little-endian
/// bytes, then its string, integer and blob attribute maps, each listed in
/// some order.
pub open spec fn encodes_entity(id: usize, a: AttrsView, bytes: Seq<u8>) -> bool {
    exists|l1: Seq<(Seq<char>, Seq<char>)>, l2: Seq<(Seq<char>, u32)>, l3: Seq<(Seq<char>, Seq<u8>)>|
        {
            &&& is_listing(a.0, l1)
            &&& is_listing(a.1, l2)
            &&& is_listing(a.2, l3)
            &&& bytes == le64(id as u64) + enc_attrs::<String>(a.0.len(), l1) + enc_attrs::<u32>(
                a.1.len(),
                l2,
            ) + enc_attrs::<Vec<u8>>(a.2.len(), l3)
        }
}

/// `bytes` is an encoding of the command `c`: a type byte, then the
/// command's fields.
pub open spec fn encodes(c: CommandView, bytes: Seq<u8>) -> bool {
    match c {
        CommandView::Insert { entity_id, attrs } => bytes.len() >= 1 && bytes[0] == 0u8 && encodes_entity(
            entity_id,
            attrs,
            bytes.skip(1),
        ),
        CommandView::BatchInsert(items) => exists|parts: Seq<Seq<u8>>|
            {
                &&& parts.len() == items.len()
                &&& forall|i: int|
                    0 <= i < items.len() ==> encodes_entity(
                        (#[trigger] items[i]).0,
                        items[i].1,
                        parts[i],
                    )
                &&& bytes == seq![1u8] + le32(items.len() as u32) + concat_all(parts)
            },
        CommandView::Delete { entity_id } => bytes == seq![2u8] + le64(entity_id as u64),
        CommandView::InsertFast { entity_id, epoch, record_type, payload } => bytes == seq![3u8] + le64(
            entity_id as u64,
        ) + le32(epoch) + le32(record_type) + le32(payload.len() as u32) + payload,
    }
}

/// Reading one entity at `pos`: its id, then its three attribute maps.
pub open spec fn parse_entity(buf: Seq<u8>, pos: int) -> Parsed<(usize, AttrsView)> {
    if pos + 8 > buf.len() {
        Parsed::Short(pos)
    } else {
        let id = u64_at(buf, pos) as usize;
        match parse_attrs::<String>(buf, pos + 8) {
            Parsed::Done(e1, p1) => match parse_attrs::<u32>(buf, p1) {
                Parsed::Done(e2, p2) => match parse_attrs::<Vec<u8>>(buf, p2) {
                    Parsed::Done(e3, p3) => Parsed::Done(
                        (id, (build_view(e1), build_view(e2), build_view(e3))),
                        p3,
                    ),
                    Parsed::Short(x) => Parsed::Short(x),
                    Parsed::Panic => Parsed::Panic,
                },
                Parsed::Short(x) => Parsed::Short(x),
                Parsed::Panic => Parsed::Panic,
            },
            Parsed::Short(x) => Parsed::Short(x),
            Parsed::Panic => Parsed::Panic,
        }
    }
}

/// Reading `count` entities from `pos`.
pub open spec fn parse_batch(buf: Seq<u8>, pos: int, count: nat) -> Parsed<Seq<(usize, AttrsView)>>
    decreases count,
{
    if count == 0 {
        Parsed::Done(Seq::empty(), pos)
    } else {
        match parse_batch(buf, pos, (count - 1) as nat) {
            Parsed::Done(items, p) => match parse_entity(buf, p) {
                Parsed::Done(it, p2) => Parsed::Done(items.push(it), p2),
                Parsed::Short(x) => Parsed::Short(x),
                Parsed::Panic => Parsed::Panic,
            },
            Parsed::Short(x) => Parsed::Short(x),
            Parsed::Panic => Parsed::Panic,
        }
    }
}

/// Reading a whole command.
pub open spec fn parse_command(buf: Seq<u8>) -> Parsed<CommandView> {
    if buf.len() == 0 {
        Parsed::Short(0)
    } else if buf[0] == 0u8 {
        match parse_entity(buf, 1) {
            Parsed::Done(it, p) => Parsed::Done(CommandView::Insert { entity_id: it.0, attrs: it.1 }, p),
            Parsed::Short(x) => Parsed::Short(x),
            Parsed::Panic => Parsed::Panic,
        }
    } else if buf[0] == 1u8 {
        if 5 > buf.len() {
            Parsed::Short(1)
        } else {
            match parse_batch(buf, 5, u32_at(buf, 1) as nat) {
                Parsed::Done(items, p) => Parsed::Done(CommandView::BatchInsert(items), p),
                Parsed::Short(x) => Parsed::Short(x),
                Parsed::Panic => Parsed::Panic,
            }
        }
    } else if buf[0] == 2u8 {
        if 9 > buf.len() {
            Parsed::Short(1)
        } else {
            Parsed::Done(CommandView::Delete { entity_id: u64_at(buf, 1) as usize }, 9)
        }
    } else if buf[0] == 3u8 {
        if 21 > buf.len() {
            Parsed::Short(1)
        } else {
            let n = u32_at(buf, 17);
            if 21 + n > buf.len() {
                Parsed::Short(21)
            } else {
                Parsed::Done(
                    CommandView::InsertFast {
                        entity_id: u64_at(buf, 1) as usize,
                        epoch: u32_at(buf, 9),
                        record_type: u32_at(buf, 13),
                        payload: buf.subrange(21, 21 + n),
                    },
                    21 + n,
                )
            }
        }
    } else {
        Parsed::Short(1)
    }
}

/// Appends one entity: its id, then its three attribute maps.
pub(crate) fn encode_entity(
    buf: &mut Vec<u8>,
    id: usize,
    a1: &Attributes<String>,
    a2: &Attributes<u32>,
    a3: &Attributes<Vec<u8>>,
)
    requires
        a1.wf(),
        a2.wf(),
        a3.wf(),
    ensures
        exists|bytes: Seq<u8>|
            final(buf)@ == old(buf)@ + bytes && #[trigger] encodes_entity(
                id,
                (a1.view(), a2.view(), a3.view()),
                bytes,
            ),
{
    let ghost b0 = buf@;
    put_u64(buf, id as u64);
    let ghost b1 = buf@;
    a1.encode_to(buf);
    let ghost l1 = choose|es: Seq<(Seq<char>, Seq<char>)>|
        is_listing(a1.view(), es) && buf@ == b1 + enc_attrs::<String>(a1.view().len(), es);
    let ghost b2 = buf@;
    a2.encode_to(buf);
    let ghost l2 = choose|es: Seq<(Seq<char>, u32)>|
        is_listing(a2.view(), es) && buf@ == b2 + enc_attrs::<u32>(a2.view().len(), es);
    let ghost b3 = buf@;
    a3.encode_to(buf);
    let ghost l3 = choose|es: Seq<(Seq<char>, Seq<u8>)>|
        is_listing(a3.view(), es) && buf@ == b3 + enc_attrs::<Vec<u8>>(a3.view().len(), es);
    proof {
        let bytes = le64(id as u64) + enc_attrs::<String>(a1.view().len(), l1) + enc_attrs::<u32>(
            a2.view().len(),
            l2,
        ) + enc_attrs::<Vec<u8>>(a3.view().len(), l3);
        assert(buf@ =~= b0 + bytes);
        assert(is_listing(a1.view(), l1));
        assert(is_listing(a2.view(), l2));
        assert(is_listing(a3.view(), l3));
        let a = (a1.view(), a2.view(), a3.view());
        assert(bytes == le64(id as u64) + enc_attrs::<String>(a.0.len(), l1) + enc_attrs::<u32>(a.1.len(), l2)
            + enc_attrs::<Vec<u8>>(a.2.len(), l3));
        assert(encodes_entity(id, a, bytes));
    }
}

/// Reads one entity at `*pos`: its id, then its three attribute maps.
pub(crate) fn decode_entity(buf: &[u8], pos: &mut usize) -> (r: Option<
    (usize, Attributes<String>, Attributes<u32>, Attributes<Vec<u8>>),
>)
    requires
        *old(pos) <= buf@.len(),
        buf@.len() <= MAX_INPUT,
    ensures
        match parse_entity(buf@, *old(pos) as int) {
            Parsed::Done(it, end) => {
                &&& r matches Some(x)
                &&& item_wf(x)
                &&& item_view(x) == it
                &&& *final(pos) == end
                &&& *final(pos) <= buf@.len()
            },
            Parsed::Short(_) => r is None,
            Parsed::Panic => r is None,
        },
{
    let entity_id = match get_u64(buf, *pos) {
        Some(v) => v as usize,
        None => return None,
    };
    *pos = *pos + 8;
    let attributes = match Attributes::<String>::decode_from(buf, pos) {
        Some(a) => a,
        None => return None,
    };
    let attributes_int = match Attributes::<u32>::decode_from(buf, pos) {
        Some(a) => a,
        None => return None,
    };
    let attributes_blob = match Attributes::<Vec<u8>>::decode_from(buf, pos) {
        Some(a) => a,
        None => return None,
    };
    Some((entity_id, attributes, attributes_int, attributes_blob))
}

/// The string, integer and blob attributes of a map of typed values.
pub open spec fn typed_view(m: Map<Seq<char>, ColumnValue>) -> AttrsView {
    (
        Map::new(
            |k: Seq<char>| m.contains_key(k) && m[k] is Str,
            |k: Seq<char>|
                match m[k] {
                    ColumnValue::Str(v) => v@,
                    _ => Seq::empty(),
                },
        ),
        Map::new(
            |k: Seq<char>| m.contains_key(k) && m[k] is Int,
            |k: Seq<char>|
                match m[k] {
                    ColumnValue::Int(v) => v,
                    _ => 0u32,
                },
        ),
        Map::new(
            |k: Seq<char>| m.contains_key(k) && m[k] is Blob,
            |k: Seq<char>|
                match m[k] {
                    ColumnValue::Blob(v) => v@,
                    _ => Seq::empty(),
                },
        ),
    )
}

/// Some entry of `es` at or past `i` has key `k`.
pub open spec fn listed_from(es: Seq<(String, ColumnValue)>, i: int, k: Seq<char>) -> bool {
    exists|j: int| i <= j < es.len() && (#[trigger] es[j]).0@ == k
}

/// `part` holds exactly the entries of `full` whose keys `es` lists at or
/// past `i`.
pub open spec fn part_so_far<VV>(part: Map<Seq<char>, VV>, full: Map<Seq<char>, VV>, es: Seq<(String, ColumnValue)>, i: int) -> bool {
    &&& forall|k: Seq<char>| #[trigger] part.contains_key(k) <==> (full.contains_key(k) && listed_from(es, i, k))
    &&& forall|k: Seq<char>| #[trigger] part.contains_key(k) ==> part[k] == full[k]
}

impl WriteCommand {
    /// An insert of `entity_id` whose attributes are those of `typed_attrs`,
    /// sorted by value type.
    pub fn insert(entity_id: usize, typed_attrs: AHashMap<String, ColumnValue>) -> (c: Self)
        requires
            typed_attrs.wf(),
            typed_attrs@.len() < MAX_ENTRIES,
        ensures
            c.wf(),
            c.view() == (CommandView::Insert { entity_id, attrs: typed_view(typed_attrs@) }),
    {
        let ghost m = typed_attrs@;
        let ghost tv = typed_view(m);
        proof {
            typed_attrs.lemma_finite();
        }
        let mut entries = typed_attrs.into_entries();
        let ghost es = entries@;
        let ghost n = es.len() as int;
        let mut attributes: Attributes<String> = Attributes::new();
        let mut attributes_int: Attributes<u32> = Attributes::new();
        let mut attributes_blob: Attributes<Vec<u8>> = Attributes::new();
        while entries.len() > 0
            invariant
                entries@.len() <= n,
                entries@ == es.take(entries@.len() as int),
                n == es.len(),
                m.dom().finite(),
                m.len() < MAX_ENTRIES,
                forall|j: int| 0 <= j < es.len() ==> m.contains_key((#[trigger] es[j]).0@) && m[es[j].0@] == es[j].1,
                forall|j1: int, j2: int| 0 <= j1 < j2 < es.len() ==> (#[trigger] es[j1]).0@ != (#[trigger] es[j2]).0@,
                tv == typed_view(m),
                attributes.wf(),
                attributes_int.wf(),
                attributes_blob.wf(),
                part_so_far(attributes.view(), tv.0, es, entries@.len() as int),
                part_so_far(attributes_int.view(), tv.1, es, entries@.len() as int),
                part_so_far(attributes_blob.view(), tv.2, es, entries@.len() as int),
            decreases entries@.len(),
        {
            let ghost i = entries@.len() - 1;
            let (k, v) = entries.pop().unwrap();
            proof {
                assert(es[i] == (k, v));
                assert(entries@ =~= es.take(i));
                assert forall|kk: Seq<char>| #[trigger] listed_from(es, i, kk) <==> (listed_from(es, i + 1, kk) || kk == k@) by {
                    if kk == k@ {
                        assert(es[i].0@ == kk);
                    }
                    if listed_from(es, i, kk) && kk != k@ {
                        let j = choose|j: int| i <= j < es.len() && (#[trigger] es[j]).0@ == kk;
                        assert(j != i);
                    }
                }
                assert(!listed_from(es, i + 1, k@)) by {
                    if listed_from(es, i + 1, k@) {
                        let j = choose|j: int| i + 1 <= j < es.len() && (#[trigger] es[j]).0@ == k@;
                        assert(es[i].0@ != es[j].0@);
                    }
                }
                assert(attributes.view().dom().subset_of(m.dom()));
                assert(attributes_int.view().dom().subset_of(m.dom()));
                assert(attributes_blob.view().dom().subset_of(m.dom()));
                vstd::set_lib::lemma_len_subset(attributes.view().dom(), m.dom());
                vstd::set_lib::lemma_len_subset(attributes_int.view().dom(), m.dom());
                vstd::set_lib::lemma_len_subset(attributes_blob.view().dom(), m.dom());
            }
            match v {
                ColumnValue::Str(s) => {
                    attributes.insert(k, s);
                },
                ColumnValue::Int(x) => {
                    attributes_int.insert(k, x);
                },
                ColumnValue::Blob(b) => {
                    attributes_blob.insert(k, b);
                },
            }
        }
        proof {
            assert forall|kk: Seq<char>| m.contains_key(kk) implies #[trigger] listed_from(es, 0, kk) by {
                let j = choose|j: int| 0 <= j < es.len() && (#[trigger] es[j]).0@ == kk;
                assert(es[j].0@ == kk);
            }
            assert(attributes.view() =~= tv.0);
            assert(attributes_int.view() =~= tv.1);
            assert(attributes_blob.view() =~= tv.2);
        }
        WriteCommand::Insert { entity_id, attributes, attributes_int, attributes_blob }
    }
}

impl WriteCommand {
    /// The command's bytes: a type byte (`0` insert, `1` batch insert, `2`
    /// delete, `3` fast insert), then its fields, integers little-endian.
    pub fn encode(&self) -> (r: Vec<u8>)
        requires
            self.wf(),
        ensures
            encodes(self.view(), r@),
    {
        let mut buf: Vec<u8> = Vec::new();
        match self {
            WriteCommand::Insert { entity_id, attributes, attributes_int, attributes_blob } => {
                buf.push(0u8);
                encode_entity(&mut buf, *entity_id, attributes, attributes_int, attributes_blob);
                proof {
                    let b = choose|b: Seq<u8>|
                        buf@ == seq![0u8] + b && #[trigger] encodes_entity(
                            *entity_id,
                            (attributes.view(), attributes_int.view(), attributes_blob.view()),
                            b,
                        );
                    assert(buf@.skip(1) =~= b);
                }
            },
            WriteCommand::BatchInsert(items) => {
                buf.push(1u8);
                put_u32(&mut buf, items.len() as u32);
                let ghost head = buf@;
                let ghost mut parts: Seq<Seq<u8>> = Seq::empty();
                let mut i: usize = 0;
                while i < items.len()
                    invariant
                        i <= items@.len(),
                        forall|j: int| 0 <= j < items@.len() ==> item_wf(#[trigger] items@[j]),
                        parts.len() == i,
                        buf@ == head + concat_all(parts),
                        forall|j: int|
                            0 <= j < i ==> encodes_entity(
                                (#[trigger] items@[j]).0,
                                item_view(items@[j]).1,
                                parts[j],
                            ),
                    decreases items@.len() - i,
                {
                    let it = &items[i];
                    assert(item_wf(items@[i as int]));
                    let ghost before = buf@;
                    encode_entity(&mut buf, it.0, &it.1, &it.2, &it.3);
                    proof {
                        let b = choose|b: Seq<u8>|
                            buf@ == before + b && #[trigger] encodes_entity(
                                it.0,
                                (it.1.view(), it.2.view(), it.3.view()),
                                b,
                            );
                        let old_parts = parts;
                        parts = parts.push(b);
                        assert(parts.drop_last() =~= old_parts);
                        assert(buf@ =~= head + concat_all(parts));
                        assert forall|j: int| 0 <= j < i + 1 implies encodes_entity(
                            (#[trigger] items@[j]).0,
                            item_view(items@[j]).1,
                            parts[j],
                        ) by {
                            if j < i {
                                assert(parts[j] == old_parts[j]);
                            }
                        }
                    }
                    i = i + 1;
                }
                proof {
                    let iv = items@.map_values(|it| item_view(it));
                    assert forall|j: int| 0 <= j < iv.len() implies encodes_entity(
                        (#[trigger] iv[j]).0,
                        iv[j].1,
                        parts[j],
                    ) by {
                        assert(encodes_entity(items@[j].0, item_view(items@[j]).1, parts[j]));
                    }
                    assert(buf@ == seq![1u8] + le32(iv.len() as u32) + concat_all(parts));
                }
            },
            WriteCommand::Delete { entity_id } => {
                buf.push(2u8);
                put_u64(&mut buf, *entity_id as u64);
            },
            WriteCommand::InsertFast { entity_id, epoch, record_type, payload } => {
                buf.push(3u8);
                put_u64(&mut buf, *entity_id as u64);
                put_u32(&mut buf, *epoch);
                put_u32(&mut buf, *record_type);
                let p: &Vec<u8> = &**payload;
                put_u32(&mut buf, p.len() as u32);
                put_bytes(&mut buf, p.as_slice());
            },
        }
        buf
    }

    /// Reads a command from its bytes. Returns `None` when the type byte is
    /// unknown, when a field, a key or a count is missing, or when a value
    /// is malformed (a key or string that is not UTF-8).
    pub fn decode(buf: &[u8]) -> (r: Option<Self>)
        requires
            buf@.len() <= MAX_INPUT,
        ensures
            match parse_command(buf@) {
                Parsed::Done(cv, _) => r matches Some(c) && c.wf() && c.view() == cv,
                _ => r is None,
            },
    {
        Self::decode_any(buf)
    }

    /// Reads a command, giving `None` wherever the bytes do not hold one; the
    /// same reader as [`WriteCommand::decode`].
    pub fn decode_any(buf: &[u8]) -> (r: Option<Self>)
        requires
            buf@.len() <= MAX_INPUT,
        ensures
            match parse_command(buf@) {
                Parsed::Done(cv, _) => r matches Some(c) && c.wf() && c.view() == cv,
                _ => r is None,
            },
    {
        let mut pos: usize = 0;
        let type_id = if buf.len() > 0 {
            buf[0]
        } else {
            return None;
        };
        pos = pos + 1;
        if type_id == 0 {
            match decode_entity(buf, &mut pos) {
                Some((entity_id, attributes, attributes_int, attributes_blob)) => Some(
                    WriteCommand::Insert { entity_id, attributes, attributes_int, attributes_blob },
                ),
                None => None,
            }
        } else if type_id == 1 {
            let count = match get_u32(buf, pos) {
                Some(c) => c as usize,
                None => return None,
            };
            pos = pos + 4;
            let mut items: Vec<(usize, Attributes<String>, Attributes<u32>, Attributes<Vec<u8>>)> =
                Vec::with_capacity(count);
            let ghost mut iv: Seq<(usize, AttrsView)> = Seq::empty();
            let mut i: usize = 0;
            while i < count
                invariant
                    5 <= buf@.len(),
                    buf@[0] == 1u8,
                    count == u32_at(buf@, 1) as nat,
                    buf@.len() <= MAX_INPUT,
                    parse_command(buf@) == match parse_batch(buf@, 5, count as nat) {
                        Parsed::Done(items, p) => Parsed::Done(CommandView::BatchInsert(items), p),
                        Parsed::Short(x) => Parsed::Short(x),
                        Parsed::Panic => Parsed::Panic,
                    },
                    i <= count,
                    parse_batch(buf@, 5, i as nat) == Parsed::Done(iv, pos as int),
                    pos <= buf@.len(),
                    items@.len() == i,
                    forall|j: int| 0 <= j < i ==> item_wf(#[trigger] items@[j]),
                    items@.map_values(|it| item_view(it)) == iv,
                decreases count - i,
            {
                let it = match decode_entity(buf, &mut pos) {
                    Some(it) => it,
                    None => {
                        proof {
                            if parse_batch(buf@, 5, (i + 1) as nat) is Short {
                                lemma_batch_short_stays(buf@, 5, (i + 1) as nat, count as nat);
                            } else {
                                lemma_batch_panic_stays(buf@, 5, (i + 1) as nat, count as nat);
                            }
                        }
                        return None;
                    },
                };
                proof {
                    let old_iv = iv;
                    iv = iv.push(item_view(it));
                    assert(iv.drop_last() =~= old_iv);
                }
                items.push(it);
                proof {
                    assert(items@.map_values(|it| item_view(it)) =~= iv);
                }
                i = i + 1;
            }
            Some(WriteCommand::BatchInsert(items))
        } else if type_id == 2 {
            match get_u64(buf, pos) {
                Some(v) => Some(WriteCommand::Delete { entity_id: v as usize }),
                None => None,
            }
        } else if type_id == 3 {
            let entity_id = match get_u64(buf, pos) {
                Some(v) => v as usize,
                None => return None,
            };
            pos = pos + 8;
            let epoch = match get_u32(buf, pos) {
                Some(v) => v,
                None => return None,
            };
            pos = pos + 4;
            let record_type = match get_u32(buf, pos) {
                Some(v) => v,
                None => return None,
            };
            pos = pos + 4;
            let len = match get_u32(buf, pos) {
                Some(v) => v as usize,
                None => return None,
            };
            pos = pos + 4;
            let bytes = match get_bytes(buf, pos, len) {
                Some(b) => b,
                None => return None,
            };
            let payload = Arc::new(slice_to_vec(bytes));
            Some(WriteCommand::InsertFast { entity_id, epoch, record_type, payload })
        } else {
            None
        }
    }
}

proof fn lemma_batch_short_stays(buf: Seq<u8>, pos: int, i: nat, n: nat)
    requires
        i <= n,
        parse_batch(buf, pos, i) is Short,
    ensures
        parse_batch(buf, pos, n) == parse_batch(buf, pos, i),
    decreases n - i,
{
    if i < n {
        lemma_batch_short_stays(buf, pos, (i + 1) as nat, n);
    }
}

proof fn lemma_batch_panic_stays(buf: Seq<u8>, pos: int, i: nat, n: nat)
    requires
        i <= n,
        parse_batch(buf, pos, i) is Panic,
    ensures
        parse_batch(buf, pos, n) is Panic,
    decreases n - i,
{
    if i < n {
        lemma_batch_panic_stays(buf, pos, (i + 1) as nat, n);
    }
}

/// Every key of `m` fits its length prefix, every value fits its own, and
/// so does the entry count.
pub open spec fn map_encodable<V: AttrValue>(m: Map<Seq<char>, V::V>) -> bool {
    &&& m.len() <= u32::MAX
    &&& forall|k: Seq<char>| #[trigger] m.contains_key(k) ==> utf8(k).len() <= u32::MAX && V::encodable(m[k])
}

/// The three attribute maps of an entity fit their length prefixes.
pub open spec fn attrs_encodable(a: AttrsView) -> bool {
    &&& map_encodable::<String>(a.0)
    &&& map_encodable::<u32>(a.1)
    &&& map_encodable::<Vec<u8>>(a.2)
}

/// Every length that the encoding of `c` writes fits its 32-bit prefix.
pub open spec fn command_encodable(c: CommandView) -> bool {
    match c {
        CommandView::Insert { attrs, .. } => attrs_encodable(attrs),
        CommandView::BatchInsert(items) => items.len() <= u32::MAX && forall|i: int|
            0 <= i < items.len() ==> attrs_encodable(#[trigger] items[i].1),
        CommandView::Delete { .. } => true,
        CommandView::InsertFast { payload, .. } => payload.len() <= u32::MAX,
    }
}

proof fn lemma_listing_encodable<V: AttrValue>(m: Map<Seq<char>, V::V>, es: Seq<(Seq<char>, V::V)>)
    requires
        is_listing(m, es),
        map_encodable::<V>(m),
    ensures
        entries_encodable::<V>(es),
        es.len() <= u32::MAX,
        build_view(es) == m,
        m.len() == es.len(),
{
    lemma_listing_builds(m, es);
    assert forall|j: int| 0 <= j < es.len() implies utf8((#[trigger] es[j]).0).len() <= u32::MAX
        && V::encodable(es[j].1) by {
        assert(m.contains_key(es[j].0));
    }
}

proof fn lemma_entity_listed(
    id: usize,
    l1: Seq<(Seq<char>, Seq<char>)>,
    l2: Seq<(Seq<char>, u32)>,
    l3: Seq<(Seq<char>, Seq<u8>)>,
    pre: Seq<u8>,
    post: Seq<u8>,
)
    requires
        entries_encodable::<String>(l1),
        entries_encodable::<u32>(l2),
        entries_encodable::<Vec<u8>>(l3),
        l1.len() <= u32::MAX,
        l2.len() <= u32::MAX,
        l3.len() <= u32::MAX,
    ensures
        ({
            let eb = le64(id as u64) + enc_attrs::<String>(l1.len(), l1) + enc_attrs::<u32>(l2.len(), l2)
                + enc_attrs::<Vec<u8>>(l3.len(), l3);
            parse_entity(pre + eb + post, pre.len() as int) == Parsed::Done(
                (id, (build_view(l1), build_view(l2), build_view(l3))),
                (pre.len() + eb.len()) as int,
            )
        }),
{
    let h = le64(id as u64);
    let e1 = enc_attrs::<String>(l1.len(), l1);
    let e2 = enc_attrs::<u32>(l2.len(), l2);
    let e3 = enc_attrs::<Vec<u8>>(l3.len(), l3);
    let eb = h + e1 + e2 + e3;
    let buf = pre + eb + post;
    lemma_le64_len(id as u64);
    assert(buf =~= pre + h + (e1 + e2 + e3 + post));
    lemma_u64_roundtrip(pre, id as u64, e1 + e2 + e3 + post);
    let p0: int = pre.len() + 8int;
    let n1: int = e1.len() as int;
    let n2: int = e2.len() as int;
    let n3: int = e3.len() as int;
    assert(buf =~= (pre + h) + e1 + (e2 + e3 + post));
    lemma_attrs_roundtrip::<String>(l1, pre + h, e2 + e3 + post);
    assert(parse_attrs::<String>(buf, p0) == Parsed::Done(l1, p0 + n1));
    assert(buf =~= (pre + h + e1) + e2 + (e3 + post));
    lemma_attrs_roundtrip::<u32>(l2, pre + h + e1, e3 + post);
    assert(parse_attrs::<u32>(buf, p0 + n1) == Parsed::Done(l2, p0 + n1 + n2));
    assert(buf =~= (pre + h + e1 + e2) + e3 + post);
    lemma_attrs_roundtrip::<Vec<u8>>(l3, pre + h + e1 + e2, post);
    assert(parse_attrs::<Vec<u8>>(buf, p0 + n1 + n2) == Parsed::Done(l3, p0 + n1 + n2 + n3));
    assert(u64_at(buf, pre.len() as int) as usize == id);
}

/// Reading back an encoded entity, wherever it stands in the buffer.
pub proof fn lemma_entity_roundtrip(id: usize, a: AttrsView, eb: Seq<u8>, pre: Seq<u8>, post: Seq<u8>)
    requires
        encodes_entity(id, a, eb),
        attrs_encodable(a),
    ensures
        parse_entity(pre + eb + post, pre.len() as int) == Parsed::Done(
            (id, a),
            (pre.len() + eb.len()) as int,
        ),
{
    let (l1, l2, l3): (Seq<(Seq<char>, Seq<char>)>, Seq<(Seq<char>, u32)>, Seq<(Seq<char>, Seq<u8>)>) = choose|
        l1: Seq<(Seq<char>, Seq<char>)>,
        l2: Seq<(Seq<char>, u32)>,
        l3: Seq<(Seq<char>, Seq<u8>)>,
    |
        {
            &&& is_listing(a.0, l1)
            &&& is_listing(a.1, l2)
            &&& is_listing(a.2, l3)
            &&& eb == le64(id as u64) + enc_attrs::<String>(a.0.len(), l1) + enc_attrs::<u32>(
                a.1.len(),
                l2,
            ) + enc_attrs::<Vec<u8>>(a.2.len(), l3)
        };
    lemma_listing_encodable::<String>(a.0, l1);
    lemma_listing_encodable::<u32>(a.1, l2);
    lemma_listing_encodable::<Vec<u8>>(a.2, l3);
    lemma_entity_listed(id, l1, l2, l3, pre, post);
}

/// The byte strings of `parts` split anywhere.
proof fn lemma_concat_split(parts: Seq<Seq<u8>>, k: int)
    requires
        0 <= k <= parts.len(),
    ensures
        concat_all(parts) == concat_all(parts.take(k)) + concat_all(parts.skip(k)),
    decreases parts.len(),
{
    if k == parts.len() {
        assert(parts.take(k) =~= parts);
        assert(parts.skip(k) =~= Seq::<Seq<u8>>::empty());
        assert(concat_all(parts) + Seq::<u8>::empty() =~= concat_all(parts));
    } else {
        let d = parts.drop_last();
        lemma_concat_split(d, k);
        assert(d.take(k) =~= parts.take(k));
        assert(parts.skip(k).drop_last() =~= d.skip(k));
        assert(parts.skip(k).last() == parts.last());
        assert(concat_all(parts) =~= concat_all(parts.take(k)) + concat_all(parts.skip(k)));
    }
}

proof fn lemma_batch_roundtrip(
    items: Seq<(usize, AttrsView)>,
    parts: Seq<Seq<u8>>,
    pre: Seq<u8>,
    post: Seq<u8>,
    k: nat,
)
    requires
        parts.len() == items.len(),
        k <= items.len(),
        forall|i: int| 0 <= i < items.len() ==> encodes_entity((#[trigger] items[i]).0, items[i].1, parts[i]),
        forall|i: int| 0 <= i < items.len() ==> attrs_encodable((#[trigger] items[i]).1),
    ensures
        parse_batch(pre + concat_all(parts) + post, pre.len() as int, k) == Parsed::Done(
            items.take(k as int),
            (pre.len() + concat_all(parts.take(k as int)).len()) as int,
        ),
    decreases k,
{
    if k == 0 {
        assert(items.take(0) =~= Seq::<(usize, AttrsView)>::empty());
        assert(parts.take(0) =~= Seq::<Seq<u8>>::empty());
    } else {
        let j = k - 1;
        lemma_batch_roundtrip(items, parts, pre, post, j as nat);
        let a = concat_all(parts.take(j));
        lemma_concat_split(parts, j);
        let s = parts.skip(j);
        lemma_concat_split(s, 1);
        assert(s.take(1).drop_last() =~= Seq::<Seq<u8>>::empty());
        assert(s.take(1).last() == parts[j]);
        assert(concat_all(s.take(1).drop_last()) =~= Seq::<u8>::empty());
        assert(concat_all(s.take(1)) =~= parts[j]);
        assert(s.skip(1) =~= parts.skip(k as int));
        let buf = pre + concat_all(parts) + post;
        assert(buf =~= (pre + a) + parts[j] + (concat_all(parts.skip(k as int)) + post));
        assert(items[j] == items[j]);
        lemma_entity_roundtrip(items[j].0, items[j].1, parts[j], pre + a, concat_all(parts.skip(k as int)) + post);
        assert(items.take(j).push(items[j]) =~= items.take(k as int));
        assert(parts.take(k as int).drop_last() =~= parts.take(j));
        assert(concat_all(parts.take(k as int)) =~= a + parts[j]);
    }
}

proof fn lemma_insert_roundtrip(entity_id: usize, attrs: AttrsView, bytes: Seq<u8>)
    requires
        encodes(CommandView::Insert { entity_id, attrs }, bytes),
        attrs_encodable(attrs),
    ensures
        parse_command(bytes) == Parsed::Done(CommandView::Insert { entity_id, attrs }, bytes.len() as int),
{
    assert(bytes =~= seq![0u8] + bytes.skip(1) + Seq::<u8>::empty());
    lemma_entity_roundtrip(entity_id, attrs, bytes.skip(1), seq![0u8], Seq::<u8>::empty());
}

proof fn lemma_batch_command_roundtrip(items: Seq<(usize, AttrsView)>, bytes: Seq<u8>)
    requires
        encodes(CommandView::BatchInsert(items), bytes),
        command_encodable(CommandView::BatchInsert(items)),
    ensures
        parse_command(bytes) == Parsed::Done(CommandView::BatchInsert(items), bytes.len() as int),
{
    let parts = choose|parts: Seq<Seq<u8>>|
        {
            &&& parts.len() == items.len()
            &&& forall|i: int|
                0 <= i < items.len() ==> encodes_entity((#[trigger] items[i]).0, items[i].1, parts[i])
            &&& bytes == seq![1u8] + le32(items.len() as u32) + concat_all(parts)
        };
    let n = items.len() as u32;
    lemma_le32_len(n);
    lemma_u32_roundtrip(seq![1u8], n, concat_all(parts));
    assert(bytes =~= (seq![1u8] + le32(n)) + concat_all(parts) + Seq::<u8>::empty());
    lemma_batch_roundtrip(items, parts, seq![1u8] + le32(n), Seq::<u8>::empty(), items.len());
    assert(items.take(items.len() as int) =~= items);
    assert(parts.take(parts.len() as int) =~= parts);
    assert(u32_at(bytes, 1) == n);
    assert(parse_batch(bytes, 5, n as nat) == Parsed::Done(items, bytes.len() as int));
}

proof fn lemma_delete_roundtrip(entity_id: usize, bytes: Seq<u8>)
    requires
        encodes(CommandView::Delete { entity_id }, bytes),
    ensures
        parse_command(bytes) == Parsed::Done(CommandView::Delete { entity_id }, bytes.len() as int),
{
    lemma_u64_roundtrip(seq![2u8], entity_id as u64, Seq::<u8>::empty());
    assert(bytes =~= seq![2u8] + le64(entity_id as u64) + Seq::<u8>::empty());
}

proof fn lemma_fast_roundtrip(entity_id: usize, epoch: u32, record_type: u32, payload: Seq<u8>, bytes: Seq<u8>)
    requires
        encodes(CommandView::InsertFast { entity_id, epoch, record_type, payload }, bytes),
        payload.len() <= u32::MAX,
    ensures
        parse_command(bytes) == Parsed::Done(
            CommandView::InsertFast { entity_id, epoch, record_type, payload },
            bytes.len() as int,
        ),
{
    let h = seq![3u8];
    let b1 = le64(entity_id as u64);
    let b2 = le32(epoch);
    let b3 = le32(record_type);
    let b4 = le32(payload.len() as u32);
    lemma_le64_len(entity_id as u64);
    lemma_le32_len(epoch);
    lemma_le32_len(record_type);
    lemma_le32_len(payload.len() as u32);
    assert(bytes =~= h + b1 + (b2 + b3 + b4 + payload));
    lemma_u64_roundtrip(h, entity_id as u64, b2 + b3 + b4 + payload);
    assert(bytes =~= (h + b1) + b2 + (b3 + b4 + payload));
    lemma_u32_roundtrip(h + b1, epoch, b3 + b4 + payload);
    assert(bytes =~= (h + b1 + b2) + b3 + (b4 + payload));
    lemma_u32_roundtrip(h + b1 + b2, record_type, b4 + payload);
    assert(bytes =~= (h + b1 + b2 + b3) + b4 + payload);
    lemma_u32_roundtrip(h + b1 + b2 + b3, payload.len() as u32, payload);
    assert(bytes.subrange(21, 21 + payload.len() as int) =~= payload);
}

/// Reading back an encoded command gives the same command, and reading
/// stops at the end of its bytes.
pub proof fn lemma_command_roundtrip(c: CommandView, bytes: Seq<u8>)
    requires
        encodes(c, bytes),
        command_encodable(c),
    ensures
        parse_command(bytes) == Parsed::Done(c, bytes.len() as int),
{
    match c {
        CommandView::Insert { entity_id, attrs } => lemma_insert_roundtrip(entity_id, attrs, bytes),
        CommandView::BatchInsert(items) => lemma_batch_command_roundtrip(items, bytes),
        CommandView::Delete { entity_id } => lemma_delete_roundtrip(entity_id, bytes),
        CommandView::InsertFast { entity_id, epoch, record_type, payload } => lemma_fast_roundtrip(
            entity_id,
            epoch,
            record_type,
            payload,
            bytes,
        ),
    }
}

/// Hands a reply back to whoever sent a request to a partition.
pub trait ResponseSender<T>: Send + Sync {
    /// Delivers `val`; an error says why it could not be delivered.
    fn send(&self, val: T) -> Result<(), String>;
}

/// What a partition's worker receives.
pub enum PartitionCommand {
    /// A write to apply.
    Write(WriteCommand),
    /// Load an entity from disk into memory and reply with its pointer.
    InternalLoad {
        entity_id: usize,
        response_tx: Box<dyn ResponseSender<Option<MultiVectorPointer>>>,
    },
    /// Stop the worker.
    Shutdown,
}

impl PartitionCommand {
    /// The variant's name.
    pub fn debug_string(&self) -> (r: String)
        ensures
            r@ == match self {
                PartitionCommand::Write(_) => "Write"@,
                PartitionCommand::InternalLoad { .. } => "InternalLoad"@,
                PartitionCommand::Shutdown => "Shutdown"@,
            },
    {
        match self {
            PartitionCommand::Write(_) => "Write".to_string(),
            PartitionCommand::InternalLoad { .. } => "InternalLoad".to_string(),
            PartitionCommand::Shutdown => "Shutdown".to_string(),
        }
    }
}

/// Severity of an operations log record.
#[derive(Debug, Clone, Copy, PartialEq, Eq, Structural)]
pub enum LogLevel {
    Info,
    Warn,
    Error,
    Fatal,
    Debug,
}

} // verus!

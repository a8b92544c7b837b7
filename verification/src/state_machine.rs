//! The application state machine: a mapping of string keys to string values,
//! its "set key = value" command, and their wire encodings.

use vstd::prelude::*;
use vstd::utf8::{decode_utf8, encode_utf8, valid_utf8};

use crate::codec::{
    be_bytes, dec_map, dec_pairs, dec_str, enc_map, enc_pairs, enc_str, lemma_dec_map_of_enc,
    lemma_dec_map_of_enc_prefix, lemma_dec_str_of_enc, lemma_enc_pairs_push, push_be_u32,
    push_str_blob, read_be_u32, read_blob, read_string, str_fits,
};

verus! {

/// A client "set key = value" command, tagged with the client's message id so
/// the caller can keep its idempotent-apply bookkeeping.
pub struct SetValueCommand {
    pub key: String,
    pub value: String,
    pub mid: String,
}

/// The application state machine: a mapping of string keys to string values,
/// held as a sequence of key/value pairs with no repeated key.
pub struct KvStateMachine(pub Vec<(String, String)>);

impl View for KvStateMachine {
    type V = Seq<(Seq<char>, Seq<char>)>;

    open spec fn view(&self) -> Seq<(Seq<char>, Seq<char>)> {
        Seq::new(self.0@.len(), |i: int| (self.0@[i].0@, self.0@[i].1@))
    }
}

/// The pairs of a mapping, each side in its UTF-8 form.
pub open spec fn kv_pair_bytes(kv: Seq<(Seq<char>, Seq<char>)>) -> Seq<(Seq<u8>, Seq<u8>)> {
    Seq::new(kv.len(), |i: int| (encode_utf8(kv[i].0), encode_utf8(kv[i].1)))
}

/// The pair count and every field length fit the wire's 32-bit prefixes.
pub open spec fn state_fits(kv: Seq<(Seq<char>, Seq<char>)>) -> bool {
    &&& kv.len() <= u32::MAX
    &&& forall|i: int|
        0 <= i < kv.len() ==> str_fits((#[trigger] kv[i]).0) && str_fits(kv[i].1)
}

/// The encoded mapping: the pair count, then each key and value as a
/// length-prefixed UTF-8 field.
pub open spec fn enc_state(kv: Seq<(Seq<char>, Seq<char>)>) -> Seq<u8>
    recommends
        state_fits(kv),
{
    enc_map(kv_pair_bytes(kv))
}

/// Both sides of every pair are valid UTF-8.
pub open spec fn utf8_pairs(ps: Seq<(Seq<u8>, Seq<u8>)>) -> bool {
    forall|i: int| 0 <= i < ps.len() ==> valid_utf8((#[trigger] ps[i]).0) && valid_utf8(ps[i].1)
}

/// The mapping read from the front of `b`: nothing on truncated input, a
/// length field pointing past the end, or a field that is not valid UTF-8;
/// trailing bytes after the encoded mapping are ignored.
pub open spec fn dec_state(b: Seq<u8>) -> Option<Seq<(Seq<char>, Seq<char>)>> {
    match dec_map(b) {
        None => None,
        Some(r) => if utf8_pairs(r.0) {
            Some(Seq::new(r.0.len(), |i: int| (decode_utf8(r.0[i].0), decode_utf8(r.0[i].1))))
        } else {
            None
        },
    }
}

/// Decoding inverts encoding: any mapping that fits the wire format is read
/// back from its own encoding exactly, pair for pair and in order.
pub proof fn lemma_state_round_trip(kv: Seq<(Seq<char>, Seq<char>)>)
    requires
        state_fits(kv),
    ensures
        dec_state(enc_state(kv)) == Some(kv),
{
    broadcast use vstd::utf8::encode_utf8_valid_utf8, vstd::utf8::encode_utf8_decode_utf8;

    let ps = kv_pair_bytes(kv);
    let e = enc_state(kv);
    assert(e.subrange(0, e.len() as int) =~= e);
    lemma_dec_map_of_enc(e, ps);
    assert(Seq::new(ps.len(), |i: int| (decode_utf8(ps[i].0), decode_utf8(ps[i].1))) =~= kv);
}

/// A strict prefix of an encoded mapping never decodes as a mapping: some
/// length field always points past the truncated end.
pub proof fn lemma_state_prefix_never_decodes(kv: Seq<(Seq<char>, Seq<char>)>, m: int)
    requires
        state_fits(kv),
        0 <= m < enc_state(kv).len(),
    ensures
        dec_state(enc_state(kv).take(m)) is None,
{
    lemma_dec_map_of_enc_prefix(kv_pair_bytes(kv), m);
}

impl KvStateMachine {
    /// Encodes the mapping in the wire format. Fails, appending nothing, when
    /// the pair count or a field's byte length overflows a 32-bit prefix.
    pub fn write_bytes(&self) -> (r: Option<Vec<u8>>)
        ensures
            r is Some <==> state_fits(self@),
            r matches Some(out) ==> out@ == enc_state(self@),
    {
        if self.0.len() > u32::MAX as usize {
            return None;
        }
        let ghost pairs = kv_pair_bytes(self@);
        let mut out: Vec<u8> = Vec::new();
        push_be_u32(&mut out, self.0.len() as u32);
        let ghost header = out@;
        for i in 0..self.0.len()
            invariant
                pairs == kv_pair_bytes(self@),
                pairs.len() == self.0.len() <= u32::MAX,
                header == be_bytes(self.0.len() as u32),
                out@ == header + enc_pairs(pairs.take(i as int)),
                forall|j: int| 0 <= j < i ==> str_fits((#[trigger] self@[j]).0) && str_fits(self@[j].1),
        {
            let k_ok = push_str_blob(&mut out, &self.0[i].0);
            if !k_ok {
                assert(!str_fits(self@[i as int].0));
                return None;
            }
            let v_ok = push_str_blob(&mut out, &self.0[i].1);
            if !v_ok {
                assert(!str_fits(self@[i as int].1));
                return None;
            }
            proof {
                lemma_enc_pairs_push(pairs.take(i as int), pairs[i as int]);
                assert(pairs.take(i as int).push(pairs[i as int]) =~= pairs.take(i + 1));
                assert(out@ =~= header + enc_pairs(pairs.take(i + 1)));
            }
        }
        proof {
            assert(pairs.take(pairs.len() as int) =~= pairs);
            assert(out@ =~= enc_state(self@));
        }
        Some(out)
    }

    /// Decodes a mapping from the front of `bytes`, ignoring trailing bytes.
    /// Fails on truncated input, a length field pointing past the end, or a
    /// field that is not valid UTF-8; it never panics, however malformed or
    /// partial the input.
    pub fn try_from_bytes(bytes: &[u8]) -> (r: Option<KvStateMachine>)
        ensures
            r is Some <==> dec_state(bytes@) is Some,
            r matches Some(sm) ==> dec_state(bytes@) == Some(sm@),
    {
        let raw = match read_byte_pairs(bytes) {
            None => {
                return None;
            },
            Some(raw) => raw,
        };
        let mut items: Vec<(String, String)> = Vec::new();
        let ghost ps = raw_pairs_view(raw@);
        for i in 0..raw.len()
            invariant
                ps == raw_pairs_view(raw@),
                dec_map(bytes@) matches Some(p) && p.0 == ps,
                items@.len() == i,
                forall|j: int|
                    0 <= j < i ==> valid_utf8((#[trigger] ps[j]).0) && valid_utf8(ps[j].1)
                        && items@[j].0@ == decode_utf8(ps[j].0) && items@[j].1@ == decode_utf8(
                        ps[j].1,
                    ),
        {
            let k = match crate::codec::bytes_to_string(raw[i].0.as_slice()) {
                None => {
                    proof {
                        assert(ps[i as int] == (raw@[i as int].0@, raw@[i as int].1@));
                        assert(!valid_utf8(ps[i as int].0));
                        assert(!utf8_pairs(ps));
                    }
                    return None;
                },
                Some(k) => k,
            };
            let v = match crate::codec::bytes_to_string(raw[i].1.as_slice()) {
                None => {
                    proof {
                        assert(ps[i as int] == (raw@[i as int].0@, raw@[i as int].1@));
                        assert(!valid_utf8(ps[i as int].1));
                        assert(!utf8_pairs(ps));
                    }
                    return None;
                },
                Some(v) => v,
            };
            items.push((k, v));
        }
        let sm = KvStateMachine(items);
        proof {
            assert(utf8_pairs(ps));
            let decoded = Seq::new(ps.len(), |i: int| (decode_utf8(ps[i].0), decode_utf8(ps[i].1)));
            assert(sm@ =~= decoded);
        }
        Some(sm)
    }
}

/// The encoded command: key, value and message id, each as a length-prefixed
/// UTF-8 field, in that fixed order.
pub open spec fn enc_cmd(key: Seq<char>, value: Seq<char>, mid: Seq<char>) -> Seq<u8>
    recommends
        str_fits(key),
        str_fits(value),
        str_fits(mid),
{
    enc_str(key) + enc_str(value) + enc_str(mid)
}

/// The command read from the front of `b`; trailing bytes are ignored.
pub open spec fn dec_cmd(b: Seq<u8>) -> Option<(Seq<char>, Seq<char>, Seq<char>)> {
    match dec_str(b, 0) {
        None => None,
        Some((key, p1)) => match dec_str(b, p1) {
            None => None,
            Some((value, p2)) => match dec_str(b, p2) {
                None => None,
                Some((mid, _)) => Some((key, value, mid)),
            },
        },
    }
}

impl SetValueCommand {
    /// Every field's UTF-8 length fits the wire's 32-bit prefix.
    pub open spec fn fits(&self) -> bool {
        str_fits(self.key@) && str_fits(self.value@) && str_fits(self.mid@)
    }

    /// Encodes the command in the wire format. Fails when a field's byte
    /// length overflows a 32-bit length prefix.
    pub fn write_bytes(&self) -> (r: Option<Vec<u8>>)
        ensures
            r is Some <==> self.fits(),
            r matches Some(out) ==> out@ == enc_cmd(self.key@, self.value@, self.mid@),
    {
        let mut out: Vec<u8> = Vec::new();
        if !push_str_blob(&mut out, &self.key) {
            return None;
        }
        if !push_str_blob(&mut out, &self.value) {
            return None;
        }
        if !push_str_blob(&mut out, &self.mid) {
            return None;
        }
        assert(out@ =~= enc_cmd(self.key@, self.value@, self.mid@));
        Some(out)
    }

    /// Decodes a command from the front of `bytes`, ignoring trailing bytes.
    /// Fails on truncated input, a length field pointing past the end, or a
    /// field that is not valid UTF-8; it never panics.
    pub fn try_from_bytes(bytes: &[u8]) -> (r: Option<SetValueCommand>)
        ensures
            r is Some <==> dec_cmd(bytes@) is Some,
            r matches Some(c) ==> dec_cmd(bytes@) == Some((c.key@, c.value@, c.mid@)),
    {
        let key = match read_string(bytes, 0) {
            None => {
                return None;
            },
            Some(k) => k,
        };
        let value = match read_string(bytes, key.1) {
            None => {
                return None;
            },
            Some(v) => v,
        };
        let mid = match read_string(bytes, value.1) {
            None => {
                return None;
            },
            Some(m) => m,
        };
        Some(SetValueCommand { key: key.0, value: value.0, mid: mid.0 })
    }
}

/// Decoding inverts encoding for commands: any command that fits the wire
/// format is read back from its own encoding exactly, field for field.
pub proof fn lemma_command_round_trip(key: Seq<char>, value: Seq<char>, mid: Seq<char>)
    requires
        str_fits(key),
        str_fits(value),
        str_fits(mid),
    ensures
        dec_cmd(enc_cmd(key, value, mid)) == Some((key, value, mid)),
{
    let e = enc_cmd(key, value, mid);
    let ek = enc_str(key);
    let ev = enc_str(value);
    let em = enc_str(mid);
    assert(e.subrange(0, ek.len() as int) =~= ek);
    lemma_dec_str_of_enc(e, 0, key);
    assert(e.subrange(ek.len() as int, ek.len() + ev.len() as int) =~= ev);
    lemma_dec_str_of_enc(e, ek.len() as int, value);
    assert(e.subrange(ek.len() + ev.len() as int, e.len() as int) =~= em);
    lemma_dec_str_of_enc(e, ek.len() + ev.len() as int, mid);
}

/// The pairs of raw fields, each side as its byte sequence.
pub open spec fn raw_pairs_view(v: Seq<(Vec<u8>, Vec<u8>)>) -> Seq<(Seq<u8>, Seq<u8>)> {
    Seq::new(v.len(), |i: int| (v[i].0@, v[i].1@))
}

/// Reads the pair count and then that many pairs of length-prefixed fields,
/// without interpreting the field bytes.
fn read_byte_pairs(bytes: &[u8]) -> (r: Option<Vec<(Vec<u8>, Vec<u8>)>>)
    ensures
        match r {
            Some(v) => dec_map(bytes@) matches Some(p) && p.0 == raw_pairs_view(v@),
            None => dec_map(bytes@) is None,
        },
{
    if bytes.len() < 4 {
        return None;
    }
    let count = read_be_u32(bytes, 0);
    assert(bytes@.subrange(0, 4) =~= bytes@.subrange(0 as int, 0 as int + 4));
    let mut items: Vec<(Vec<u8>, Vec<u8>)> = Vec::new();
    let mut pos: usize = 4;
    let mut i: u32 = 0;
    while i < count
        invariant
            bytes@.len() >= 4,
            4 <= pos <= bytes@.len(),
            i <= count,
            count == be_value_at_start(bytes@),
            items@.len() == i,
            dec_pairs(bytes@, 4, count as int) == (match dec_pairs(
                bytes@,
                pos as int,
                count - i,
            ) {
                None => None::<(Seq<(Seq<u8>, Seq<u8>)>, int)>,
                Some(rest) => Some((raw_pairs_view(items@) + rest.0, rest.1)),
            }),
        decreases count - i,
    {
        let k = match read_blob(bytes, pos) {
            None => {
                return None;
            },
            Some(k) => k,
        };
        let v = match read_blob(bytes, k.1) {
            None => {
                return None;
            },
            Some(v) => v,
        };
        proof {
            let prev = raw_pairs_view(items@);
            let pair = (k.0@, v.0@);
            assert(raw_pairs_view(items@.push((k.0, v.0))) =~= prev.push(pair));
            assert(forall|rest: Seq<(Seq<u8>, Seq<u8>)>|
                prev + (seq![pair] + rest) =~= #[trigger] (prev.push(pair) + rest));
        }
        items.push((k.0, v.0));
        pos = v.1;
        i = i + 1;
    }
    proof {
        assert(dec_pairs(bytes@, pos as int, 0) == Some((Seq::<(Seq<u8>, Seq<u8>)>::empty(), pos as int)));
        assert(raw_pairs_view(items@) + Seq::<(Seq<u8>, Seq<u8>)>::empty() =~= raw_pairs_view(
            items@,
        ));
    }
    Some(items)
}

/// The pair count at the front of an encoded mapping.
pub open spec fn be_value_at_start(b: Seq<u8>) -> u32
    recommends
        b.len() >= 4,
{
    crate::codec::be_value(b.subrange(0, 4))
}

/// The position of the first pair with the given key, or -1 if no pair has it.
pub open spec fn first_key_index(kv: Seq<(Seq<char>, Seq<char>)>, key: Seq<char>) -> int
    decreases kv.len(),
{
    if kv.len() == 0 {
        -1
    } else if kv[0].0 == key {
        0
    } else {
        let r = first_key_index(kv.drop_first(), key);
        if r < 0 {
            -1
        } else {
            1 + r
        }
    }
}

/// What `first_key_index` returns: the first position holding the key, or -1
/// when no position does.
pub proof fn lemma_first_key_index(kv: Seq<(Seq<char>, Seq<char>)>, key: Seq<char>)
    ensures
        first_key_index(kv, key) >= 0 ==> {
            let i = first_key_index(kv, key);
            &&& i < kv.len()
            &&& kv[i].0 == key
            &&& forall|j: int| 0 <= j < i ==> (#[trigger] kv[j]).0 != key
        },
        first_key_index(kv, key) < 0 ==> forall|j: int|
            0 <= j < kv.len() ==> (#[trigger] kv[j]).0 != key,
    decreases kv.len(),
{
    if kv.len() == 0 {
    } else if kv[0].0 == key {
    } else {
        lemma_first_key_index(kv.drop_first(), key);
        let r = first_key_index(kv.drop_first(), key);
        if r < 0 {
            assert forall|j: int| 0 <= j < kv.len() implies (#[trigger] kv[j]).0 != key by {
                if j >= 1 {
                    assert(kv.drop_first()[j - 1] == kv[j]);
                    assert(kv.drop_first()[j - 1].0 != key);
                }
            }
        } else {
            assert(kv.drop_first()[r] == kv[r + 1]);
            assert forall|j: int| 0 <= j < r + 1 implies (#[trigger] kv[j]).0 != key by {
                if j >= 1 {
                    assert(kv.drop_first()[j - 1] == kv[j]);
                    assert(kv.drop_first()[j - 1].0 != key);
                }
            }
        }
    }
}

/// A mapping after setting a key: the first pair with that key is replaced,
/// or the new pair is appended when no pair has the key.
pub open spec fn kv_insert(
    kv: Seq<(Seq<char>, Seq<char>)>,
    key: Seq<char>,
    value: Seq<char>,
) -> Seq<(Seq<char>, Seq<char>)> {
    let i = first_key_index(kv, key);
    if i >= 0 {
        kv.update(i, (key, value))
    } else {
        kv.push((key, value))
    }
}

/// No two pairs share a key.
pub open spec fn kv_wf(kv: Seq<(Seq<char>, Seq<char>)>) -> bool {
    forall|i: int, j: int|
        0 <= i < j < kv.len() ==> (#[trigger] kv[i]).0 != (#[trigger] kv[j]).0
}

/// Setting a key never introduces a repeated key.
pub proof fn lemma_kv_insert_wf(kv: Seq<(Seq<char>, Seq<char>)>, key: Seq<char>, value: Seq<char>)
    requires
        kv_wf(kv),
    ensures
        kv_wf(kv_insert(kv, key, value)),
{
    lemma_first_key_index(kv, key);
    let i = first_key_index(kv, key);
    if i >= 0 {
        assert forall|a: int, b: int|
            0 <= a < b < kv.len() implies (#[trigger] kv_insert(kv, key, value)[a]).0 != (
        #[trigger] kv_insert(kv, key, value)[b]).0 by {
            assert(kv[a].0 != kv[b].0);
        }
    }
}

impl KvStateMachine {
    /// Sets `command.key` to `command.value`: the first pair with the key is
    /// replaced in place, and a fresh key is appended at the end.
    pub fn apply_command(&mut self, command: &SetValueCommand)
        ensures
            final(self)@ == kv_insert(old(self)@, command.key@, command.value@),
            kv_wf(old(self)@) ==> kv_wf(final(self)@),
    {
        proof {
            lemma_first_key_index(old(self)@, command.key@);
            if kv_wf(old(self)@) {
                lemma_kv_insert_wf(old(self)@, command.key@, command.value@);
            }
        }
        let n = self.0.len();
        for i in 0..n
            invariant
                n == self.0.len(),
                self@ == old(self)@,
                forall|j: int| 0 <= j < i ==> (#[trigger] old(self)@[j]).0 != command.key@,
                first_key_index(old(self)@, command.key@) >= 0 ==> {
                    let f = first_key_index(old(self)@, command.key@);
                    &&& f < old(self)@.len()
                    &&& old(self)@[f].0 == command.key@
                    &&& forall|j: int| 0 <= j < f ==> (#[trigger] old(self)@[j]).0 != command.key@
                },
                first_key_index(old(self)@, command.key@) < 0 ==> forall|j: int|
                    0 <= j < old(self)@.len() ==> (#[trigger] old(self)@[j]).0 != command.key@,
        {
            if self.0[i].0 == command.key {
                proof {
                    assert(old(self)@[i as int].0 == command.key@);
                    assert(first_key_index(old(self)@, command.key@) >= 0);
                    assert(first_key_index(old(self)@, command.key@) == i);
                }
                self.0.remove(i);
                self.0.insert(i, (command.key.clone(), command.value.clone()));
                proof {
                    assert(self@ =~= old(self)@.update(i as int, (command.key@, command.value@)));
                }
                return ;
            }
        }
        proof {
            assert(first_key_index(old(self)@, command.key@) < 0);
        }
        self.0.push((command.key.clone(), command.value.clone()));
        proof {
            assert(self@ =~= old(self)@.push((command.key@, command.value@)));
        }
    }

    /// Looks a key up: the value of the first pair with the key, or nothing
    /// when no pair has it.
    pub fn get(&self, key: &String) -> (r: Option<&String>)
        ensures
            r is Some <==> first_key_index(self@, key@) >= 0,
            r matches Some(v) ==> v@ == self@[first_key_index(self@, key@)].1,
    {
        proof {
            lemma_first_key_index(self@, key@);
        }
        let n = self.0.len();
        for i in 0..n
            invariant
                n == self.0.len(),
                forall|j: int| 0 <= j < i ==> (#[trigger] self@[j]).0 != key@,
        {
            if self.0[i].0 == *key {
                proof {
                    lemma_first_key_index(self@, key@);
                    assert(self@[i as int].0 == key@);
                    assert(first_key_index(self@, key@) == i);
                }
                return Some(&self.0[i].1);
            }
        }
        None
    }
}

/// Copies a state machine, pair for pair.
pub fn clone_state_machine(state_machine: &KvStateMachine) -> (r: KvStateMachine)
    ensures
        r@ == state_machine@,
{
    let mut items: Vec<(String, String)> = Vec::new();
    let n = state_machine.0.len();
    for i in 0..n
        invariant
            n == state_machine.0.len(),
            items@.len() == i,
            forall|j: int|
                0 <= j < i ==> (#[trigger] items@[j]).0@ == state_machine@[j].0 && items@[j].1@
                    == state_machine@[j].1,
    {
        items.push((state_machine.0[i].0.clone(), state_machine.0[i].1.clone()));
    }
    let r = KvStateMachine(items);
    assert(r@ =~= state_machine@);
    r
}

} // verus!

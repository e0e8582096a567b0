//! The RC4 stream cipher.

use vstd::prelude::*;

verus! {

/// The state before the key schedule: each byte value at its own index.
pub open spec fn identity_state() -> Seq<u8> {
    Seq::new(256, |i: int| i as u8)
}

/// `s` with the bytes at `a` and `b` exchanged.
pub open spec fn swap_at(s: Seq<u8>, a: int, b: int) -> Seq<u8> {
    s.update(a, s[b]).update(b, s[a])
}

/// The state and index `j` after the first `n` of the 256 steps of the key
/// schedule of `key`.
pub open spec fn key_schedule(key: Seq<u8>, n: nat) -> (Seq<u8>, int)
    decreases n,
{
    if n == 0 {
        (identity_state(), 0)
    } else {
        let (s, j) = key_schedule(key, (n - 1) as nat);
        let i = n - 1;
        let j2 = (j + s[i] + key[(i % (key.len() as int))]) % 256;
        (swap_at(s, i, j2), j2)
    }
}

/// The generator from state `s0` applied to the first `n` bytes of `data`:
/// the state, the indices `i` and `j`, and the output so far, each byte of
/// `data` XORed with the next byte of the key stream.
pub open spec fn keystream_xor(s0: Seq<u8>, data: Seq<u8>, n: nat) -> (Seq<u8>, int, int, Seq<u8>)
    decreases n,
{
    if n == 0 {
        (s0, 0, 0, Seq::empty())
    } else {
        let (s, i, j, out) = keystream_xor(s0, data, (n - 1) as nat);
        let i2 = (i + 1) % 256;
        let j2 = (j + s[i2]) % 256;
        let s2 = swap_at(s, i2, j2);
        let k = s2[(s2[i2] + s2[j2]) % 256];
        (s2, i2, j2, out.push(data[n - 1] ^ k))
    }
}

/// RC4 with `key` applied to `data`; the same for encryption and decryption.
pub open spec fn rc4(key: Seq<u8>, data: Seq<u8>) -> Seq<u8> {
    keystream_xor(key_schedule(key, 256).0, data, data.len()).3
}

proof fn lemma_key_schedule_len(key: Seq<u8>, n: nat)
    requires
        n <= 256,
    ensures
        key_schedule(key, n).0.len() == 256,
        0 <= key_schedule(key, n).1 < 256,
    decreases n,
{
    if n > 0 {
        lemma_key_schedule_len(key, (n - 1) as nat);
    }
}

proof fn lemma_keystream_len(s0: Seq<u8>, data: Seq<u8>, n: nat)
    requires
        s0.len() == 256,
        n <= data.len(),
    ensures
        keystream_xor(s0, data, n).0.len() == 256,
        0 <= keystream_xor(s0, data, n).1 < 256,
        0 <= keystream_xor(s0, data, n).2 < 256,
        keystream_xor(s0, data, n).3.len() == n,
    decreases n,
{
    if n > 0 {
        lemma_keystream_len(s0, data, (n - 1) as nat);
    }
}

/// The generator's state, indices and key stream byte after `n` bytes: the
/// same whatever the data.
proof fn lemma_keystream_independent(s0: Seq<u8>, a: Seq<u8>, b: Seq<u8>, n: nat)
    requires
        s0.len() == 256,
        n <= a.len(),
        n <= b.len(),
    ensures
        keystream_xor(s0, a, n).0 == keystream_xor(s0, b, n).0,
        keystream_xor(s0, a, n).1 == keystream_xor(s0, b, n).1,
        keystream_xor(s0, a, n).2 == keystream_xor(s0, b, n).2,
        forall|i: int| 0 <= i < n ==> #[trigger] keystream_xor(s0, a, n).3[i] ^ a[i] == keystream_xor(s0, b, n).3[i] ^ b[i],
    decreases n,
{
    lemma_keystream_len(s0, a, n);
    lemma_keystream_len(s0, b, n);
    if n > 0 {
        lemma_keystream_independent(s0, a, b, (n - 1) as nat);
        lemma_keystream_len(s0, a, (n - 1) as nat);
        lemma_keystream_len(s0, b, (n - 1) as nat);
        let (s, i, j, oa) = keystream_xor(s0, a, (n - 1) as nat);
        let ob = keystream_xor(s0, b, (n - 1) as nat).3;
        let i2 = (i + 1) % 256;
        let j2 = (j + s[i2]) % 256;
        let s2 = swap_at(s, i2, j2);
        let k = s2[(s2[i2] + s2[j2]) % 256];
        let x = a[n - 1];
        let y = b[n - 1];
        assert((x ^ k) ^ x == (y ^ k) ^ y) by (bit_vector);
        assert forall|m: int| 0 <= m < n implies #[trigger] keystream_xor(s0, a, n).3[m] ^ a[m]
            == keystream_xor(s0, b, n).3[m] ^ b[m] by {
            if m < n - 1 {
                assert(keystream_xor(s0, a, n).3[m] == oa[m]);
                assert(keystream_xor(s0, b, n).3[m] == ob[m]);
            }
        }
    }
}

/// RC4 gives as many bytes as it is given.
pub proof fn lemma_rc4_len(key: Seq<u8>, data: Seq<u8>)
    ensures
        rc4(key, data).len() == data.len(),
{
    lemma_key_schedule_len(key, 256);
    lemma_keystream_len(key_schedule(key, 256).0, data, data.len());
}

/// RC4 undoes itself: applying it twice with the same key gives back the
/// data.
pub proof fn lemma_rc4_involution(key: Seq<u8>, data: Seq<u8>)
    ensures
        rc4(key, rc4(key, data)) == data,
{
    lemma_key_schedule_len(key, 256);
    let s0 = key_schedule(key, 256).0;
    let once = rc4(key, data);
    lemma_keystream_len(s0, data, data.len());
    lemma_keystream_len(s0, once, once.len());
    lemma_keystream_independent(s0, data, once, data.len());
    let twice = rc4(key, once);
    assert forall|i: int| 0 <= i < data.len() implies #[trigger] twice[i] == data[i] by {
        let x = data[i];
        let c = once[i];
        let t = twice[i];
        assert(c ^ x == t ^ c);
        assert(c ^ x == t ^ c ==> t == x) by (bit_vector);
    }
    assert(twice =~= data);
}

/// An RC4 cipher whose key schedule has run.
pub struct Rc4 {
    state: Vec<u8>,
}

impl Rc4 {
    #[verifier::type_invariant]
    spec fn wf(self) -> bool {
        self.state@.len() == 256
    }

    /// The state after the key schedule.
    pub closed spec fn scheduled(&self) -> Seq<u8> {
        self.state@
    }

    /// Runs the key schedule of `key`, which is not empty.
    pub fn new(key: &[u8]) -> (r: Rc4)
        requires
            key@.len() > 0,
        ensures
            r.scheduled() == key_schedule(key@, 256).0,
    {
        let mut s: Vec<u8> = Vec::new();
        let mut k: usize = 0;
        while k < 256
            invariant
                k <= 256,
                s@.len() == k,
                forall|m: int| 0 <= m < k ==> s@[m] == m as u8,
            decreases 256 - k,
        {
            s.push(k as u8);
            k = k + 1;
        }
        assert(s@ =~= identity_state());
        let len = key.len();
        let mut j: usize = 0;
        let mut i: usize = 0;
        while i < 256
            invariant
                len == key@.len(),
                len > 0,
                i <= 256,
                (s@, j as int) == key_schedule(key@, i as nat),
            decreases 256 - i,
        {
            proof {
                lemma_key_schedule_len(key@, i as nat);
            }
            j = (j + s[i] as usize + key[i % len] as usize) % 256;
            let t = s[i];
            let u = s[j];
            s.set(i, u);
            s.set(j, t);
            i = i + 1;
        }
        proof {
            lemma_key_schedule_len(key@, 256);
        }
        Rc4 { state: s }
    }

    /// Applies the key stream to `data`.
    pub fn encrypt(&self, data: &[u8]) -> (r: Vec<u8>)
        ensures
            r@ == keystream_xor(self.scheduled(), data@, data@.len()).3,
            r@.len() == data@.len(),
    {
        proof {
            use_type_invariant(self);
        }
        let mut s: Vec<u8> = self.state.clone();
        assert(s@ == self.state@);
        let mut out: Vec<u8> = Vec::new();
        let mut i: usize = 0;
        let mut j: usize = 0;
        let mut n: usize = 0;
        while n < data.len()
            invariant
                n <= data@.len(),
                self.state@.len() == 256,
                (s@, i as int, j as int, out@) == keystream_xor(self.state@, data@, n as nat),
            decreases data@.len() - n,
        {
            proof {
                lemma_keystream_len(self.state@, data@, n as nat);
            }
            i = (i + 1) % 256;
            j = (j + s[i] as usize) % 256;
            let t = s[i];
            let u = s[j];
            s.set(i, u);
            s.set(j, t);
            let k = s[(s[i] as usize + s[j] as usize) % 256];
            out.push(data[n] ^ k);
            n = n + 1;
        }
        proof {
            lemma_keystream_len(self.state@, data@, n as nat);
        }
        out
    }

    /// Applies the key stream to `data`: RC4 decryption is its encryption.
    pub fn decrypt(&self, data: &[u8]) -> (r: Vec<u8>)
        ensures
            r@ == keystream_xor(self.scheduled(), data@, data@.len()).3,
            r@.len() == data@.len(),
    {
        self.encrypt(data)
    }
}

} // verus!

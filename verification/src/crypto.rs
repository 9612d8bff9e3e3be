use vstd::prelude::*;

verus! {

/// Byte addition modulo 256.
pub open spec fn add8(a: u8, b: u8) -> u8 {
    ((a + b) % 256) as u8
}

/// Byte subtraction modulo 256.
pub open spec fn sub8(a: u8, b: u8) -> u8 {
    ((a + 256 - b) % 256) as u8
}

/// Rotates a byte left by one bit.
pub open spec fn rotl8(a: u8) -> u8 {
    ((a % 128) * 2 + a / 128) as u8
}

/// The three key bytes of the RAR 1.3 stream cipher.
pub type CipherKey = (u8, u8, u8);

/// The key derived from a password: each password byte is added into the first
/// key byte, xored into the second, and added into the third, which is then
/// rotated left by one bit.
pub open spec fn password_key(password: Seq<u8>) -> CipherKey
    decreases password.len(),
{
    if password.len() == 0 {
        (0, 0, 0)
    } else {
        let k = password_key(password.drop_last());
        let c = password.last();
        (add8(k.0, c), k.1 ^ c, rotl8(add8(k.2, c)))
    }
}

/// The sum of the bytes of `s`.
pub open spec fn byte_sum(s: Seq<u8>) -> int {
    s.fold_left(0int, |acc: int, x: u8| acc + x)
}

/// The exclusive or of the bytes of `s`.
pub open spec fn byte_xor(s: Seq<u8>) -> u8 {
    s.fold_left(0u8, |acc: u8, x: u8| acc ^ x)
}

/// Adding one more password byte moves each key byte by that byte alone:
/// the first byte adds it, the second xors it in, and the third adds it and
/// rotates left by one bit; every byte of the password counts, however long.
pub proof fn lemma_password_key_push(p: Seq<u8>, c: u8)
    ensures
        ({
            let k = password_key(p);
            let t = (k.2 + c) % 256;
            &&& password_key(p.push(c)).0 == (k.0 + c) % 256
            &&& password_key(p.push(c)).1 == k.1 ^ c
            &&& password_key(p.push(c)).2 == (t * 2) % 256 + t / 128
        }),
{
    assert(p.push(c).drop_last() =~= p);
}

/// The first key byte is the sum of the password's bytes modulo 256, and the
/// second their exclusive or.
pub proof fn lemma_password_key_folds(p: Seq<u8>)
    ensures
        password_key(p).0 == byte_sum(p) % 256,
        password_key(p).1 == byte_xor(p),
    decreases p.len(),
{
    if p.len() > 0 {
        lemma_password_key_folds(p.drop_last());
        let k = password_key(p.drop_last());
        assert(byte_sum(p) == byte_sum(p.drop_last()) + p.last());
        assert(byte_xor(p) == byte_xor(p.drop_last()) ^ p.last());
        assert(((byte_sum(p.drop_last()) % 256) + p.last()) % 256 == (byte_sum(p.drop_last())
            + p.last()) % 256) by (nonlinear_arith);
    }
}

/// The fixed key under which archive comments are packed.
pub open spec fn comment_key() -> CipherKey {
    (0, 7, 77)
}

/// One step of the key schedule, taken before each byte.
pub open spec fn key_step(k: CipherKey) -> CipherKey {
    let k1 = add8(k.1, k.2);
    (add8(k.0, k1), k1, k.2)
}

/// The key after `n` bytes have been processed.
pub open spec fn key_after(k: CipherKey, n: nat) -> CipherKey
    decreases n,
{
    if n == 0 {
        k
    } else {
        key_step(key_after(k, (n - 1) as nat))
    }
}

/// The keystream byte combined with the byte at position `i`.
pub open spec fn keystream(k: CipherKey, i: nat) -> u8 {
    key_after(k, i + 1).0
}

/// The ciphertext of `data` under key `k`.
pub open spec fn encrypt_seq(k: CipherKey, data: Seq<u8>) -> Seq<u8> {
    Seq::new(data.len(), |i: int| add8(data[i], keystream(k, i as nat)))
}

/// The plaintext of `data` under key `k`.
pub open spec fn decrypt_seq(k: CipherKey, data: Seq<u8>) -> Seq<u8> {
    Seq::new(data.len(), |i: int| sub8(data[i], keystream(k, i as nat)))
}

/// Decrypting with the key that encrypted gives the plaintext back.
pub proof fn lemma_decrypt_encrypt(k: CipherKey, data: Seq<u8>)
    ensures
        decrypt_seq(k, encrypt_seq(k, data)) == data,
{
    assert(decrypt_seq(k, encrypt_seq(k, data)) =~= data);
}

/// Encrypting with the key that decrypted gives the ciphertext back.
pub proof fn lemma_encrypt_decrypt(k: CipherKey, data: Seq<u8>)
    ensures
        encrypt_seq(k, decrypt_seq(k, data)) == data,
{
    assert(encrypt_seq(k, decrypt_seq(k, data)) =~= data);
}

/// Encrypting a concatenation is encrypting the first part, then the second
/// part with the key reached after the first.
pub proof fn lemma_encrypt_append(k: CipherKey, a: Seq<u8>, b: Seq<u8>)
    ensures
        encrypt_seq(k, a + b) == encrypt_seq(k, a) + encrypt_seq(key_after(k, a.len()), b),
{
    assert forall|i: int| 0 <= i < b.len() implies #[trigger] keystream(key_after(k, a.len()), i as nat)
        == keystream(k, (a.len() + i) as nat) by {
        lemma_key_after_add(k, a.len(), (i + 1) as nat);
    }
    assert(encrypt_seq(k, a + b) =~= encrypt_seq(k, a) + encrypt_seq(key_after(k, a.len()), b));
}

proof fn lemma_key_after_add(k: CipherKey, m: nat, n: nat)
    ensures
        key_after(key_after(k, m), n) == key_after(k, m + n),
    decreases n,
{
    if n > 0 {
        lemma_key_after_add(k, m, (n - 1) as nat);
    }
}

fn add8_exec(a: u8, b: u8) -> (r: u8)
    ensures
        r == add8(a, b),
{
    ((a as u16 + b as u16) % 256) as u8
}

fn sub8_exec(a: u8, b: u8) -> (r: u8)
    ensures
        r == sub8(a, b),
{
    ((a as u16 + 256 - b as u16) % 256) as u8
}

fn rotl8_exec(a: u8) -> (r: u8)
    ensures
        r == rotl8(a),
{
    ((a % 128) * 2 + a / 128) as u8
}

/// The RAR 1.3/1.4 file and comment cipher: a byte-wise additive stream cipher
/// whose key schedule advances once per byte.
#[derive(Debug, Clone, Copy)]
pub struct Rar13Cipher {
    key0: u8,
    key1: u8,
    key2: u8,
}

impl View for Rar13Cipher {
    type V = CipherKey;

    closed spec fn view(&self) -> CipherKey {
        (self.key0, self.key1, self.key2)
    }
}

impl Rar13Cipher {
    /// The cipher keyed by a password.
    pub fn new(password: &[u8]) -> (c: Rar13Cipher)
        ensures
            c@ == password_key(password@),
    {
        let mut c = Rar13Cipher { key0: 0, key1: 0, key2: 0 };
        let mut i: usize = 0;
        while i < password.len()
            invariant
                i <= password.len(),
                c@ == password_key(password@.subrange(0, i as int)),
            decreases password.len() - i,
        {
            let p = password[i];
            proof {
                let s = password@.subrange(0, i + 1);
                assert(s.drop_last() =~= password@.subrange(0, i as int));
                assert(s.last() == p);
            }
            c.key0 = add8_exec(c.key0, p);
            c.key1 = c.key1 ^ p;
            c.key2 = rotl8_exec(add8_exec(c.key2, p));
            i = i + 1;
        }
        assert(password@.subrange(0, password@.len() as int) =~= password@);
        c
    }

    /// The cipher under which packed archive comments are stored.
    pub fn new_comment() -> (c: Rar13Cipher)
        ensures
            c@ == comment_key(),
    {
        Rar13Cipher { key0: 0, key1: 7, key2: 77 }
    }

    fn step(&mut self)
        ensures
            final(self)@ == key_step(old(self)@),
    {
        self.key1 = add8_exec(self.key1, self.key2);
        self.key0 = add8_exec(self.key0, self.key1);
    }

    /// Decrypts one byte and advances the key.
    pub fn decrypt_byte(&mut self, byte: u8) -> (plain: u8)
        ensures
            final(self)@ == key_step(old(self)@),
            plain == sub8(byte, final(self)@.0),
    {
        self.step();
        sub8_exec(byte, self.key0)
    }

    /// Encrypts one byte and advances the key.
    pub fn encrypt_byte(&mut self, byte: u8) -> (cipher: u8)
        ensures
            final(self)@ == key_step(old(self)@),
            cipher == add8(byte, final(self)@.0),
    {
        self.step();
        add8_exec(byte, self.key0)
    }

    /// Encrypts `data` in place.
    pub fn encrypt_in_place(&mut self, data: &mut Vec<u8>)
        ensures
            final(data)@ == encrypt_seq(old(self)@, old(data)@),
            final(self)@ == key_after(old(self)@, old(data)@.len()),
    {
        let ghost k = self@;
        let ghost orig = data@;
        let mut i: usize = 0;
        while i < data.len()
            invariant
                data@.len() == orig.len(),
                i <= data@.len(),
                self@ == key_after(k, i as nat),
                forall|j: int| 0 <= j < i ==> data@[j] == add8(orig[j], keystream(k, j as nat)),
                forall|j: int| i <= j < data@.len() ==> data@[j] == orig[j],
            decreases data@.len() - i,
        {
            let b = data[i];
            let e = self.encrypt_byte(b);
            data.set(i, e);
            i = i + 1;
        }
        assert(data@ =~= encrypt_seq(k, orig));
    }

    /// Decrypts `data` in place.
    pub fn decrypt_in_place(&mut self, data: &mut Vec<u8>)
        ensures
            final(data)@ == decrypt_seq(old(self)@, old(data)@),
            final(self)@ == key_after(old(self)@, old(data)@.len()),
    {
        let ghost k = self@;
        let ghost orig = data@;
        let mut i: usize = 0;
        while i < data.len()
            invariant
                data@.len() == orig.len(),
                i <= data@.len(),
                self@ == key_after(k, i as nat),
                forall|j: int| 0 <= j < i ==> data@[j] == sub8(orig[j], keystream(k, j as nat)),
                forall|j: int| i <= j < data@.len() ==> data@[j] == orig[j],
            decreases data@.len() - i,
        {
            let b = data[i];
            let d = self.decrypt_byte(b);
            data.set(i, d);
            i = i + 1;
        }
        assert(data@ =~= decrypt_seq(k, orig));
    }
}

} // verus!

use vstd::prelude::*;
use crate::base::error::Error;
use crate::base::misc::be_value;
use crate::crypto::ctx::{Ctx, CurveContext};
use crate::crypto::cpsrng::{aes_ctr_output, Cpsrng};
use crate::crypto::secp::{
    curve_order, internal_x_nonzero, pubkey_of, pubkey_parsed, pubkey_serialized, pubkey_sum, scalar_ok,
    secp_pubkey_combine, secp_pubkey_serialize,
    secp_pubkey_create, secp_pubkey_parse, secp_scalar_negate, secp_seckey_verify, seckey_valid,
};

verus! {

/// The number of draws `SecretKey::gen` makes before it gives up.
pub const MAX_KEY_DRAWS: u32 = 1024;

/// The first valid key among at most `left` draws from the keystream of `key` and `iv`: each
/// draw XORs the next 32 keystream bytes, from `offset` on, into the previous draw (`prev`
/// before the first).
pub open spec fn first_valid_draw(key: Seq<u8>, iv: Seq<u8>, offset: u64, prev: Seq<u8>, left: nat) -> Option<Seq<u8>>
    decreases left,
{
    if left == 0 {
        None
    } else {
        let d = aes_ctr_output(key, iv, offset, prev);
        if seckey_valid(d) {
            Some(d)
        } else {
            first_valid_draw(key, iv, ((offset + 32) % 0x1_0000_0000_0000_0000) as u64, d, (left - 1) as nat)
        }
    }
}

/// The key that `SecretKey::gen` draws from a generator in state `g`, if it finds one.
pub open spec fn drawn_key(g: Cpsrng) -> Option<Seq<u8>> {
    drawn_key_at(g.spec_key(), g.spec_iv(), g.spec_offset())
}

/// The key that `SecretKey::gen` draws from a generator with the given key and IV at
/// `offset`, if it finds one.
pub open spec fn drawn_key_at(key: Seq<u8>, iv: Seq<u8>, offset: u64) -> Option<Seq<u8>> {
    first_valid_draw(key, iv, offset, Seq::new(32, |i: int| 0u8), MAX_KEY_DRAWS as nat)
}

/// Where the generator stands once `first_valid_draw` has found a key: the offset just past
/// the draw that gave it.
pub open spec fn draw_end(key: Seq<u8>, iv: Seq<u8>, offset: u64, prev: Seq<u8>, left: nat) -> Option<u64>
    decreases left,
{
    if left == 0 {
        None
    } else {
        let d = aes_ctr_output(key, iv, offset, prev);
        let next = ((offset + 32) % 0x1_0000_0000_0000_0000) as u64;
        if seckey_valid(d) {
            Some(next)
        } else {
            draw_end(key, iv, next, d, (left - 1) as nat)
        }
    }
}

/// The generator's offset after `SecretKey::gen` on a generator with the given key and IV at
/// `offset`, when it finds a key.
pub open spec fn drawn_end_at(key: Seq<u8>, iv: Seq<u8>, offset: u64) -> Option<u64> {
    draw_end(key, iv, offset, Seq::new(32, |i: int| 0u8), MAX_KEY_DRAWS as nat)
}

/// The generator's offset after `SecretKey::gen` on a generator in state `g`, when it finds
/// a key.
pub open spec fn drawn_end(g: Cpsrng) -> Option<u64> {
    drawn_end_at(g.spec_key(), g.spec_iv(), g.spec_offset())
}

/// `k` successive key draws from a generator with the given key and IV at `offset` all find
/// a key.
pub open spec fn draws_succeed(key: Seq<u8>, iv: Seq<u8>, offset: u64, k: nat) -> bool
    decreases k,
{
    if k == 0 {
        true
    } else {
        match drawn_end_at(key, iv, offset) {
            Some(o) => draws_succeed(key, iv, o, (k - 1) as nat),
            None => false,
        }
    }
}

/// `SecretKey::gen` finds a key exactly when its draws have an end.
pub proof fn lemma_drawn_end_found(g: Cpsrng)
    ensures
        drawn_end(g) is Some <==> drawn_key(g) is Some,
{
    lemma_draw_end_found(g.spec_key(), g.spec_iv(), g.spec_offset(), Seq::new(32, |i: int| 0u8),
        MAX_KEY_DRAWS as nat);
}

/// A draw finds a key exactly when it has an end.
pub proof fn lemma_draw_end_found(key: Seq<u8>, iv: Seq<u8>, offset: u64, prev: Seq<u8>, left: nat)
    ensures
        draw_end(key, iv, offset, prev, left) is Some <==> first_valid_draw(key, iv, offset, prev, left) is Some,
    decreases left,
{
    if left > 0 {
        let d = aes_ctr_output(key, iv, offset, prev);
        lemma_draw_end_found(key, iv, ((offset + 32) % 0x1_0000_0000_0000_0000) as u64, d, (left - 1) as nat);
    }
}

/// Negating a scalar twice modulo the group order gives it back: what `SecretKey::negate`
/// makes of the value of a key below the order, a second `negate` undoes.
pub proof fn lemma_negate_twice(x: int)
    requires
        0 <= x < curve_order(),
    ensures
        (curve_order() - (curve_order() - x) % (curve_order() as int)) % (curve_order() as int) == x,
{
    let n = curve_order() as int;
    if x == 0 {
        vstd::arithmetic::div_mod::lemma_mod_self_0(n);
        vstd::arithmetic::div_mod::lemma_mod_self_0(n);
    } else {
        vstd::arithmetic::div_mod::lemma_small_mod((n - x) as nat, n as nat);
        vstd::arithmetic::div_mod::lemma_small_mod(x as nat, n as nat);
    }
}

/// A string of zero bytes has the value zero.
pub proof fn lemma_be_value_zeros(n: nat)
    ensures
        be_value(Seq::new(n, |i: int| 0u8)) == 0,
    decreases n,
{
    if n > 0 {
        lemma_be_value_zeros((n - 1) as nat);
        assert(Seq::new(n, |i: int| 0u8).drop_last() =~= Seq::new((n - 1) as nat, |i: int| 0u8));
    }
}

/// A secret scalar: 32 big-endian bytes below the group order (zero included, as the
/// all-zero key that stands for "no key").
#[derive(Clone, Copy, Debug)]
pub struct SecretKey {
    bytes: [u8; 32],
}

impl SecretKey {
    /// Every secret key is a scalar below the group order.
    #[verifier::type_invariant]
    spec fn inv(self) -> bool {
        scalar_ok(self.bytes@)
    }

    /// The key's bytes.
    pub closed spec fn view(&self) -> Seq<u8> {
        self.bytes@
    }

    /// A key is 32 bytes long.
    pub proof fn lemma_len(&self)
        ensures
            self@.len() == 32,
    {
    }

    /// The key's bytes (a scalar below the group order).
    pub fn as_bytes(&self) -> (r: &[u8; 32])
        ensures
            r@ == self@,
            scalar_ok(self@),
    {
        proof { use_type_invariant(self); }
        &self.bytes
    }

    /// The all-zero key.
    pub fn zero() -> (r: Self)
        ensures
            r@ == Seq::new(32, |i: int| 0u8),
    {
        let bytes = [0u8; 32];
        proof {
            assert(bytes@ =~= Seq::new(32, |i: int| 0u8));
            lemma_be_value_zeros(32);
        }
        SecretKey { bytes }
    }

    /// Builds a key from bytes known to be a scalar below the group order.
    pub(crate) fn from_scalar(bytes: [u8; 32]) -> (r: Self)
        requires
            scalar_ok(bytes@),
        ensures
            r@ == bytes@,
    {
        SecretKey { bytes }
    }

    /// A random valid secret key: keystream bytes from the context's generator are drawn
    /// into the key until it is valid (non-zero and below the group order). Gives up with
    /// `InsufficientEntropy` after `MAX_KEY_DRAWS` draws.
    pub fn gen(ctx: &mut Ctx) -> (r: Result<Self, Error>)
        ensures
            r matches Ok(k) ==> seckey_valid(k@),
            r is Err ==> r == Err::<Self, Error>(Error::InsufficientEntropy),
            match drawn_key(old(ctx).rng()) {
                Some(k) => r matches Ok(key) && key@ == k,
                None => r is Err,
            },
            final(ctx).rng().spec_key() == old(ctx).rng().spec_key(),
            final(ctx).rng().spec_iv() == old(ctx).rng().spec_iv(),
            drawn_end(old(ctx).rng()) matches Some(o) ==> final(ctx).rng().spec_offset() == o,
    {
        proof {
            lemma_draw_end_found(ctx.rng().spec_key(), ctx.rng().spec_iv(), ctx.rng().spec_offset(),
                Seq::new(32, |i: int| 0u8), MAX_KEY_DRAWS as nat);
        }
        let mut v = [0u8; 32];
        let mut draws: u32 = 0;
        assert(v@ =~= Seq::new(32, |i: int| 0u8));
        while draws < MAX_KEY_DRAWS
            invariant
                draws <= MAX_KEY_DRAWS,
                v@.len() == 32,
                ctx.rng().spec_key() == old(ctx).rng().spec_key(),
                ctx.rng().spec_iv() == old(ctx).rng().spec_iv(),
                drawn_key(old(ctx).rng()) == first_valid_draw(ctx.rng().spec_key(), ctx.rng().spec_iv(),
                    ctx.rng().spec_offset(), v@, (MAX_KEY_DRAWS - draws) as nat),
                drawn_end(old(ctx).rng()) == draw_end(ctx.rng().spec_key(), ctx.rng().spec_iv(),
                    ctx.rng().spec_offset(), v@, (MAX_KEY_DRAWS - draws) as nat),
            decreases MAX_KEY_DRAWS - draws,
        {
            ctx.gen(&mut v);
            if secp_seckey_verify(ctx.secp(), &v) {
                return Ok(SecretKey { bytes: v });
            }
            draws += 1;
        }
        Err(Error::InsufficientEntropy)
    }

    /// Replaces the key by its negation modulo the group order.
    pub fn negate(&mut self, ctx: &Ctx) -> (r: Result<(), Error>)
        ensures
            r is Ok,
            be_value(final(self)@) == (curve_order() - be_value(old(self)@)) % (curve_order() as int),
    {
        proof { use_type_invariant(&*self); }
        match secp_scalar_negate(ctx.secp(), &self.bytes) {
            Some(bytes) => {
                *self = SecretKey { bytes };
                Ok(())
            },
            None => Err(Error::OperationFailed),
        }
    }

    /// `Ok` exactly when the key is valid (non-zero and below the group order), else
    /// `OperationFailed`.
    pub fn validate(&self, ctx: &Ctx) -> (r: Result<(), Error>)
        ensures
            seckey_valid(self@) ==> r is Ok,
            !seckey_valid(self@) ==> r == Err::<(), Error>(Error::OperationFailed),
    {
        if secp_seckey_verify(ctx.secp(), &self.bytes) {
            Ok(())
        } else {
            Err(Error::OperationFailed)
        }
    }
}

impl PartialEq for SecretKey {
    fn eq(&self, other: &Self) -> (r: bool) {
        let mut i: usize = 0;
        while i < 32
            invariant
                0 <= i <= 32,
                forall|j: int| 0 <= j < i ==> self.bytes@[j] == other.bytes@[j],
            decreases 32 - i,
        {
            if self.bytes[i] != other.bytes[i] {
                return false;
            }
            i += 1;
        }
        assert(self.bytes@ =~= other.bytes@);
        true
    }
}

impl vstd::std_specs::cmp::PartialEqSpecImpl for SecretKey {
    open spec fn obeys_eq_spec() -> bool {
        true
    }

    open spec fn eq_spec(&self, other: &Self) -> bool {
        self@ == other@
    }
}

/// A compressed public key: 33 bytes.
#[derive(Clone, Copy, Debug)]
pub struct PublicKey {
    bytes: [u8; 33],
}

/// A public key in the curve library's internal 64-byte form.
#[derive(Clone, Copy, Debug)]
pub struct PublicKeyUncompressed {
    bytes: [u8; 64],
}

impl PublicKeyUncompressed {
    /// The key's bytes.
    pub closed spec fn view(&self) -> Seq<u8> {
        self.bytes@
    }

    /// A key with the given internal bytes.
    pub fn new(v: [u8; 64]) -> (r: Self)
        ensures
            r@ == v@,
    {
        PublicKeyUncompressed { bytes: v }
    }
}

impl PublicKey {
    /// The key's bytes.
    pub closed spec fn view(&self) -> Seq<u8> {
        self.bytes@
    }

    /// The key's bytes.
    pub fn as_bytes(&self) -> (r: &[u8; 33])
        ensures
            r@ == self@,
    {
        &self.bytes
    }

    /// A key with the given compressed bytes.
    pub fn from_bytes(bytes: [u8; 33]) -> (r: Self)
        ensures
            r@ == bytes@,
    {
        PublicKey { bytes }
    }

    /// The public key of a secret key; `OperationFailed` for an invalid secret key.
    pub fn from<C: CurveContext>(ctx: &C, secret_key: &SecretKey) -> (r: Result<Self, Error>)
        ensures
            !seckey_valid(secret_key@) ==> r == Err::<Self, Error>(Error::OperationFailed),
            seckey_valid(secret_key@) ==> (r matches Ok(pk) && pk@ == pubkey_of(secret_key@)),
    {
        if !secp_seckey_verify(ctx.curve(), secret_key.as_bytes()) {
            return Err(Error::OperationFailed);
        }
        match secp_pubkey_create(ctx.commit_context(), secret_key.as_bytes()) {
            Some(bytes) => Ok(PublicKey { bytes }),
            None => Err(Error::Serialization),
        }
    }

    /// The compressed form of a key given in the curve library's internal form (whose x
    /// coordinate must not be zero).
    pub fn compress<C: CurveContext>(ctx: &C, key: PublicKeyUncompressed) -> (r: Result<Self, Error>)
        requires
            internal_x_nonzero(key@),
        ensures
            r matches Ok(pk) && pk@ == pubkey_serialized(key@),
    {
        let bytes = secp_pubkey_serialize(ctx.curve(), &key.bytes);
        Ok(PublicKey { bytes })
    }

    /// The key in the curve library's internal form; `OperationFailed` when the bytes are no
    /// public key.
    pub fn decompress(&self, ctx: &Ctx) -> (r: Result<PublicKeyUncompressed, Error>)
        ensures
            match pubkey_parsed(self@) {
                Some(v) => r matches Ok(u) && u@ == v,
                None => r == Err::<PublicKeyUncompressed, Error>(Error::OperationFailed),
            },
    {
        match secp_pubkey_parse(ctx.secp(), &self.bytes) {
            Some(bytes) => Ok(PublicKeyUncompressed { bytes }),
            None => Err(Error::OperationFailed),
        }
    }

    /// The sum of two public keys: `IllegalArgument` when either is no public key,
    /// `OperationFailed` when the sum cannot be formed.
    pub fn combine(&self, ctx: &Ctx, other: &PublicKey) -> (r: Result<Self, Error>)
        ensures
            (pubkey_parsed(self@) is None || pubkey_parsed(other@) is None) ==> r == Err::<
                Self,
                Error,
            >(Error::IllegalArgument),
            (pubkey_parsed(self@) is Some && pubkey_parsed(other@) is Some) ==> match pubkey_sum(
                self@,
                other@,
            ) {
                Some(v) => r matches Ok(k) && k@ == v,
                None => r == Err::<Self, Error>(Error::OperationFailed),
            },
    {
        if secp_pubkey_parse(ctx.secp(), &self.bytes).is_none() {
            return Err(Error::IllegalArgument);
        }
        if secp_pubkey_parse(ctx.secp(), &other.bytes).is_none() {
            return Err(Error::IllegalArgument);
        }
        match secp_pubkey_combine(ctx.secp(), &self.bytes, &other.bytes) {
            Some(bytes) => Ok(PublicKey { bytes }),
            None => Err(Error::OperationFailed),
        }
    }
}

impl PartialEq for PublicKey {
    fn eq(&self, other: &Self) -> (r: bool) {
        let mut i: usize = 0;
        while i < 33
            invariant
                0 <= i <= 33,
                forall|j: int| 0 <= j < i ==> self.bytes@[j] == other.bytes@[j],
            decreases 33 - i,
        {
            if self.bytes[i] != other.bytes[i] {
                return false;
            }
            i += 1;
        }
        assert(self.bytes@ =~= other.bytes@);
        true
    }
}

impl vstd::std_specs::cmp::PartialEqSpecImpl for PublicKey {
    open spec fn obeys_eq_spec() -> bool {
        true
    }

    open spec fn eq_spec(&self, other: &Self) -> bool {
        self@ == other@
    }
}

impl PartialEq for PublicKeyUncompressed {
    fn eq(&self, other: &Self) -> (r: bool) {
        let mut i: usize = 0;
        while i < 64
            invariant
                0 <= i <= 64,
                forall|j: int| 0 <= j < i ==> self.bytes@[j] == other.bytes@[j],
            decreases 64 - i,
        {
            if self.bytes[i] != other.bytes[i] {
                return false;
            }
            i += 1;
        }
        assert(self.bytes@ =~= other.bytes@);
        true
    }
}

impl vstd::std_specs::cmp::PartialEqSpecImpl for PublicKeyUncompressed {
    open spec fn obeys_eq_spec() -> bool {
        true
    }

    open spec fn eq_spec(&self, other: &Self) -> bool {
        self@ == other@
    }
}

} // verus!

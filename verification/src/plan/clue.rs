//! The plan for a detection clue: everything that fixes the clue, so that it
//! can be made later, and made again, with the same result.

use vstd::prelude::*;

verus! {

/// Length of an encoded address.
pub const ADDRESS_LEN: usize = 80;

/// A payment address, as its parts: the diversifier, the transmission key and
/// the clue key.
#[derive(Clone, Copy, Debug)]
pub struct Address {
    pub diversifier: [u8; 16],
    pub transmission_key: [u8; 32],
    pub clue_key: [u8; 32],
}

/// The plan of a clue as it travels: every part optional or of open length.
#[derive(Clone, Debug)]
pub struct CluePlanMessage {
    pub address: Option<Vec<u8>>,
    pub rseed: Vec<u8>,
    pub precision_bits: u64,
}

/// A message as plain values.
pub struct MessageView {
    pub address: Option<Seq<u8>>,
    pub rseed: Seq<u8>,
    pub precision_bits: u64,
}

impl View for CluePlanMessage {
    type V = MessageView;

    open spec fn view(&self) -> MessageView {
        MessageView {
            address: match self.address {
                Some(bytes) => Some(bytes@),
                None => None,
            },
            rseed: self.rseed@,
            precision_bits: self.precision_bits,
        }
    }
}

/// What is wrong with a message, if anything is: the first of the faults in
/// the order address, seed, precision.
pub open spec fn rejection(msg: MessageView) -> Option<PlanError> {
    if msg.address is None {
        Some(PlanError::MissingAddress)
    } else if msg.address.unwrap().len() != 80 {
        Some(PlanError::InvalidAddress)
    } else if msg.rseed.len() != 32 {
        Some(PlanError::InvalidSeed)
    } else if msg.precision_bits > usize::MAX {
        Some(PlanError::InvalidPrecision)
    } else {
        None
    }
}

/// Why a message is not a plan.
#[derive(Clone, Copy, Debug, PartialEq, Eq, Structural)]
pub enum PlanError {
    /// The message names no address.
    MissingAddress,
    /// The address is not 80 bytes long.
    InvalidAddress,
    /// The seed is not 32 bytes long.
    InvalidSeed,
    /// The precision does not fit the machine's word.
    InvalidPrecision,
}

/// The plan for a clue: the address that the clue is for, the precision of
/// detection in bits, and the seed that stands in for chance.
#[derive(Clone, Copy, Debug)]
pub struct CluePlan {
    address: Address,
    precision_bits: usize,
    rseed: [u8; 32],
}

/// The clue that `decaf377_fmd` makes for a clue key, a precision and a seed,
/// or `None` where it makes none: the key is not the encoding of a group
/// element, or the precision is above the largest one.
pub uninterp spec fn fmd_clue(clue_key: Seq<u8>, precision_bits: u8, rseed: Seq<u8>) -> Option<
    Seq<u8>,
>;

/// Calls `decaf377_fmd::ExpandedClueKey::new`, `Precision::new` and
/// `ExpandedClueKey::create_clue_deterministic`. Trusted: the outcome is the
/// one function of the three arguments that `fmd_clue` names; a clue is 68
/// bytes long, and none is made for a precision above 24 bits. (The outside
/// function unwraps the inverse of a scalar that it derives from the key and
/// the seed by hashing, and so rests on that scalar not being zero.)
#[verifier::external_body]
fn create_clue(clue_key: &[u8; 32], precision_bits: u8, rseed: &[u8; 32]) -> (clue: Option<
    Vec<u8>,
>)
    ensures
        match clue {
            Some(bytes) => fmd_clue(clue_key@, precision_bits, rseed@) == Some(bytes@)
                && bytes@.len() == 68,
            None => fmd_clue(clue_key@, precision_bits, rseed@) is None,
        },
        precision_bits > 24 ==> clue is None,
{
    let key = decaf377_fmd::ExpandedClueKey::new(&decaf377_fmd::ClueKey(*clue_key)).ok()?;
    let precision = decaf377_fmd::Precision::new(precision_bits).ok()?;
    key.create_clue_deterministic(precision, *rseed).ok().map(Vec::from)
}

/// Copies `N` bytes, starting at `from`, out of a longer run of bytes.
fn take<const N: usize>(bytes: &Vec<u8>, from: usize) -> (part: [u8; N])
    requires
        from + N <= bytes@.len(),
    ensures
        part@ == bytes@.subrange(from as int, from + N),
{
    let mut part = [0u8; N];
    let len = bytes.len();
    let mut i: usize = 0;
    while i < N
        invariant
            i <= N,
            len == bytes@.len(),
            from + N <= len,
            part@.len() == N,
            forall|j: int| 0 <= j < i ==> part@[j] == bytes@[from + j],
        decreases N - i,
    {
        part[i] = bytes[from + i];
        i += 1;
    }
    assert(part@ =~= bytes@.subrange(from as int, from + N));
    part
}

/// Appends `N` bytes to a run of bytes.
fn put<const N: usize>(bytes: &mut Vec<u8>, part: &[u8; N])
    ensures
        final(bytes)@ == old(bytes)@ + part@,
{
    let mut i: usize = 0;
    while i < N
        invariant
            i <= N,
            part@.len() == N,
            bytes@ == old(bytes)@ + part@.subrange(0, i as int),
        decreases N - i,
    {
        bytes.push(part[i]);
        i += 1;
        assert(bytes@ =~= old(bytes)@ + part@.subrange(0, i as int));
    }
    assert(part@.subrange(0, N as int) =~= part@);
}

impl Address {
    /// The encoding of the address: the diversifier, the transmission key
    /// and the clue key, one after the other.
    pub open spec fn encoding(self) -> Seq<u8> {
        self.diversifier@ + self.transmission_key@ + self.clue_key@
    }

    /// The key that clues for this address are made with.
    pub fn clue_key(&self) -> (key: [u8; 32])
        ensures
            key == self.clue_key,
    {
        self.clue_key
    }

    /// The encoding of the address.
    pub fn to_bytes(&self) -> (bytes: Vec<u8>)
        ensures
            bytes@ == self.encoding(),
            bytes@.len() == 80,
    {
        let mut bytes = Vec::new();
        put(&mut bytes, &self.diversifier);
        put(&mut bytes, &self.transmission_key);
        put(&mut bytes, &self.clue_key);
        bytes
    }

    /// The address with this encoding, if the bytes are as many as an address
    /// takes.
    pub fn from_bytes(bytes: &Vec<u8>) -> (address: Option<Address>)
        ensures
            address is Some <==> bytes@.len() == 80,
            address matches Some(a) ==> a.encoding() == bytes@,
    {
        if bytes.len() != ADDRESS_LEN {
            return None;
        }
        let address = Address {
            diversifier: take::<16>(bytes, 0),
            transmission_key: take::<32>(bytes, 16),
            clue_key: take::<32>(bytes, 48),
        };
        assert(address.encoding() =~= bytes@);
        Some(address)
    }
}

impl CluePlan {
    /// The address that the clue is for.
    pub closed spec fn address_spec(&self) -> Address {
        self.address
    }

    /// The precision of detection, in bits.
    pub closed spec fn precision_spec(&self) -> usize {
        self.precision_bits
    }

    /// The seed.
    pub closed spec fn rseed_spec(&self) -> [u8; 32] {
        self.rseed
    }

    /// What the plan looks like as a message.
    pub open spec fn message_spec(&self) -> MessageView {
        MessageView {
            address: Some(self.address_spec().encoding()),
            rseed: self.rseed_spec()@,
            precision_bits: self.precision_spec() as u64,
        }
    }

    /// The clue that the plan stands for, if there is one.
    pub open spec fn clue_spec(&self) -> Option<Seq<u8>> {
        if self.precision_spec() > 255 {
            None
        } else {
            fmd_clue(
                self.address_spec().clue_key@,
                self.precision_spec() as u8,
                self.rseed_spec()@,
            )
        }
    }

    /// A plan for a clue for `address` (which may be a dummy), with the seed
    /// that the caller has drawn.
    pub fn new(rseed: [u8; 32], address: Address, precision_bits: usize) -> (plan: CluePlan)
        ensures
            plan.address_spec() == address,
            plan.precision_spec() == precision_bits,
            plan.rseed_spec() == rseed,
    {
        CluePlan { address, rseed, precision_bits }
    }

    /// The address that the clue is for.
    pub fn address(&self) -> (address: Address)
        ensures
            address == self.address_spec(),
    {
        self.address
    }

    /// The precision of detection, in bits.
    pub fn precision_bits(&self) -> (bits: usize)
        ensures
            bits == self.precision_spec(),
    {
        self.precision_bits
    }

    /// The seed.
    pub fn rseed(&self) -> (rseed: [u8; 32])
        ensures
            rseed == self.rseed_spec(),
    {
        self.rseed
    }

    /// Makes the clue. The same plan always gives the same clue. There is
    /// none where the clue key of the address is not valid or the precision
    /// is more than the scheme allows.
    pub fn clue(&self) -> (clue: Option<Vec<u8>>)
        ensures
            match clue {
                Some(bytes) => self.clue_spec() == Some(bytes@) && bytes@.len() == 68,
                None => self.clue_spec() is None,
            },
            self.precision_spec() > 24 ==> clue is None,
    {
        if self.precision_bits > 255 {
            None
        } else {
            create_clue(&self.address.clue_key, self.precision_bits as u8, &self.rseed)
        }
    }

    /// The plan as a message.
    pub fn to_message(&self) -> (msg: CluePlanMessage)
        ensures
            msg@ == self.message_spec(),
    {
        let mut rseed = Vec::new();
        put(&mut rseed, &self.rseed);
        assert(rseed@ =~= self.rseed@);
        CluePlanMessage {
            address: Some(self.address.to_bytes()),
            rseed,
            precision_bits: self.precision_bits as u64,
        }
    }

    /// The plan that a message holds. The message is refused for the first
    /// of these: it names no address, the address is not 80 bytes long, the
    /// seed is not 32 bytes long, the precision does not fit.
    pub fn from_message(msg: &CluePlanMessage) -> (r: Result<CluePlan, PlanError>)
        ensures
            match r {
                Ok(plan) => rejection(msg@) is None && plan.message_spec() == msg@,
                Err(e) => rejection(msg@) == Some(e),
            },
    {
        let address = match &msg.address {
            None => {
                return Err(PlanError::MissingAddress);
            },
            Some(bytes) => match Address::from_bytes(bytes) {
                None => {
                    return Err(PlanError::InvalidAddress);
                },
                Some(address) => address,
            },
        };
        if msg.rseed.len() != 32 {
            return Err(PlanError::InvalidSeed);
        }
        let rseed = take::<32>(&msg.rseed, 0);
        assert(rseed@ =~= msg.rseed@);
        if msg.precision_bits > usize::MAX as u64 {
            return Err(PlanError::InvalidPrecision);
        }
        Ok(CluePlan { address, rseed, precision_bits: msg.precision_bits as usize })
    }

    /// Every plan is accepted back from its own message, and no two plans
    /// share a message.
    pub proof fn lemma_message_round_trip(self, other: CluePlan)
        ensures
            rejection(self.message_spec()) is None,
            self.message_spec() == other.message_spec() ==> self == other,
    {
        let a = self.address;
        let b = other.address;
        assert(a.encoding().len() == 80);
        if self.message_spec() == other.message_spec() {
            assert(a.encoding() == b.encoding());
            assert(a.diversifier@ =~= a.encoding().subrange(0, 16));
            assert(b.diversifier@ =~= b.encoding().subrange(0, 16));
            assert(a.transmission_key@ =~= a.encoding().subrange(16, 48));
            assert(b.transmission_key@ =~= b.encoding().subrange(16, 48));
            assert(a.clue_key@ =~= a.encoding().subrange(48, 80));
            assert(b.clue_key@ =~= b.encoding().subrange(48, 80));
            assert(a.diversifier =~= b.diversifier);
            assert(a.transmission_key =~= b.transmission_key);
            assert(a.clue_key =~= b.clue_key);
            assert(self.rseed =~= other.rseed);
        }
    }
}

} // verus!

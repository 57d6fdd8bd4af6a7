//! What a caller asks for: identity fields given as raw bytes, profile transfers and titles.
use crate::bytes::{be_val, get_be, le_bytes, put_le, take_array};
use crate::stfs::write::IdentityOverrides;
use crate::utils::text::{encode_utf16, utf16_of};
use vstd::prelude::*;

verus! {

/// Sectors per chunk where the caller names none.
pub fn default_sectors_per_chunk() -> (r: u32)
    ensures
        r == 64,
{
    64
}

/// Code units with the low byte first.
pub open spec fn utf16le(units: Seq<u16>) -> Seq<u8>
    decreases units.len(),
{
    if units.len() == 0 {
        Seq::empty()
    } else {
        utf16le(units.drop_last()) + le_bytes(units.last() as nat, 2)
    }
}

/// `s` in UTF-16LE.
pub fn utf16le_bytes(s: &str) -> (r: Vec<u8>)
    ensures
        r@ == utf16le(utf16_of(s@)),
{
    let units = encode_utf16(s);
    let mut r: Vec<u8> = Vec::new();
    let mut i: usize = 0;
    assert(units@.take(0) =~= Seq::empty());
    while i < units.len()
        invariant
            i <= units@.len(),
            r@ == utf16le(units@.take(i as int)),
        decreases units@.len() - i,
    {
        put_le(&mut r, units[i] as u64, 2);
        proof {
            assert(units@.take(i + 1).drop_last() =~= units@.take(i as int));
        }
        i = i + 1;
    }
    assert(units@.take(i as int) =~= units@);
    r
}

/// UTF-16LE holds each code unit where it is looked for, and nothing else.
pub proof fn utf16le_holds_the_units(units: Seq<u16>, i: int)
    requires
        0 <= i < units.len(),
    ensures
        utf16le(units).len() == 2 * units.len(),
        utf16le(units).subrange(2 * i, 2 * i + 2) == le_bytes(units[i] as nat, 2),
    decreases units.len(),
{
    broadcast use crate::bytes::group_fields;

    let front = units.drop_last();
    lemma_utf16le_len(front);
    lemma_utf16le_len(units);
    if i < front.len() {
        utf16le_holds_the_units(front, i);
        assert(utf16le(units).subrange(2 * i, 2 * i + 2) =~= utf16le(front).subrange(
            2 * i,
            2 * i + 2,
        ));
    } else {
        assert(utf16le(units).subrange(2 * i, 2 * i + 2) =~= le_bytes(units[i] as nat, 2));
    }
}

proof fn lemma_utf16le_len(units: Seq<u16>)
    ensures
        utf16le(units).len() == 2 * units.len(),
    decreases units.len(),
{
    broadcast use crate::bytes::group_fields;

    if units.len() > 0 {
        lemma_utf16le_len(units.drop_last());
    }
}

/// Why a caller's options are refused.
#[derive(Clone, Copy, Debug, PartialEq, Eq, Structural)]
pub enum OptionError {
    /// A device ID that is not 20 bytes long, with its length.
    DeviceIdLength(usize),
    /// A console ID that is not 5 bytes long, with its length.
    ConsoleIdLength(usize),
    /// A profile ID that is not 8 bytes long, with its length.
    ProfileIdLength(usize),
    /// An online creator ID that is not 8 bytes long, with its length.
    OnlineCreatorLength(usize),
    /// A profile transfer that changes nothing.
    TransferChangesNothing,
    /// A profile transfer out of an image.
    TransferNeedsExtracted,
    /// The format of the source was not worked out.
    SourceUnresolved,
}

impl OptionError {
    pub open spec fn text(&self) -> Seq<char> {
        match self {
            OptionError::DeviceIdLength(_) => "deviceId must be exactly 20 bytes"@,
            OptionError::ConsoleIdLength(_) => "consoleId must be exactly 5 bytes"@,
            OptionError::ProfileIdLength(_) => "profileId must be exactly 8 bytes"@,
            OptionError::OnlineCreatorLength(_) => "onlineCreator must be exactly 8 bytes"@,
            OptionError::TransferChangesNothing => {
                "profileTransfer requires at least one of newGamertag/newXuid"@
            },
            OptionError::TransferNeedsExtracted => {
                "profileTransfer requires an already-extracted STFS profile-package source (one with a root-level Account file) - not an image-backed one"@
            },
            OptionError::SourceUnresolved => {
                "source format must be resolved first - call detectFormat() or detectDirFormat() and pass the result as `source`"@
            },
        }
    }

    pub fn message(&self) -> (r: &'static str)
        ensures
            r@ == self.text(),
    {
        match self {
            OptionError::DeviceIdLength(_) => "deviceId must be exactly 20 bytes",
            OptionError::ConsoleIdLength(_) => "consoleId must be exactly 5 bytes",
            OptionError::ProfileIdLength(_) => "profileId must be exactly 8 bytes",
            OptionError::OnlineCreatorLength(_) => "onlineCreator must be exactly 8 bytes",
            OptionError::TransferChangesNothing => {
                "profileTransfer requires at least one of newGamertag/newXuid"
            },
            OptionError::TransferNeedsExtracted => {
                "profileTransfer requires an already-extracted STFS profile-package source (one with a root-level Account file) - not an image-backed one"
            },
            OptionError::SourceUnresolved => {
                "source format must be resolved first - call detectFormat() or detectDirFormat() and pass the result as `source`"
            },
        }
    }
}

/// A source whose format is known. None is an error, not a silent default.
pub fn resolve_source_options<T>(source: Option<T>) -> (r: Result<T, OptionError>)
    ensures
        match source {
            Some(s) => r == Ok::<T, OptionError>(s),
            None => r == Err::<T, OptionError>(OptionError::SourceUnresolved),
        },
{
    match source {
        Some(s) => Ok(s),
        None => Err(OptionError::SourceUnresolved),
    }
}

/// The field that optional bytes give: none if there are none, and an error if they are not `n`
/// bytes long.
pub open spec fn is_exact<const N: usize>(
    bytes: Option<Vec<u8>>,
    e: OptionError,
    r: Result<Option<[u8; N]>, OptionError>,
) -> bool {
    match bytes {
        None => r == Ok::<Option<[u8; N]>, OptionError>(None),
        Some(b) => if b@.len() == N {
            r matches Ok(Some(a)) && a@ == b@
        } else {
            r == Err::<Option<[u8; N]>, OptionError>(e)
        },
    }
}

/// The length of optional bytes; zero if there are none.
pub open spec fn given_len(bytes: Option<Vec<u8>>) -> usize {
    match bytes {
        Some(b) => b@.len() as usize,
        None => 0,
    }
}

fn exact<const N: usize>(bytes: &Option<Vec<u8>>, e: OptionError) -> (r: Result<
    Option<[u8; N]>,
    OptionError,
>)
    ensures
        is_exact(*bytes, e, r),
{
    match bytes {
        None => Ok(None),
        Some(b) => {
            if b.len() != N {
                return Err(e);
            }
            let a: [u8; N] = take_array(b.as_slice(), 0);
            assert(a@ =~= b@);
            Ok(Some(a))
        },
    }
}

fn len_of(bytes: &Option<Vec<u8>>) -> (r: usize)
    ensures
        r == given_len(*bytes),
{
    match bytes {
        Some(b) => b.len(),
        None => 0,
    }
}

/// The raw bytes of a console's keyvault.
pub struct SigningKeyBytes(pub Option<Vec<u8>>);

impl SigningKeyBytes {
    pub fn into_inner(self) -> (r: Option<Vec<u8>>)
        ensures
            r == self.0,
    {
        self.0
    }
}

/// Raw bytes to put in place of the device ID.
pub struct DeviceIdBytes(pub Option<Vec<u8>>);

impl DeviceIdBytes {
    pub fn into_device_id(self) -> (r: Result<Option<[u8; 20]>, OptionError>)
        ensures
            is_exact(self.0, OptionError::DeviceIdLength(given_len(self.0)), r),
    {
        exact(&self.0, OptionError::DeviceIdLength(len_of(&self.0)))
    }
}

/// Raw bytes to put in place of the console ID.
pub struct ConsoleIdBytes(pub Option<Vec<u8>>);

impl ConsoleIdBytes {
    pub fn into_console_id(self) -> (r: Result<Option<[u8; 5]>, OptionError>)
        ensures
            is_exact(self.0, OptionError::ConsoleIdLength(given_len(self.0)), r),
    {
        exact(&self.0, OptionError::ConsoleIdLength(len_of(&self.0)))
    }
}

/// Raw bytes to put in place of the profile ID.
pub struct ProfileIdBytes(pub Option<Vec<u8>>);

impl ProfileIdBytes {
    pub fn into_profile_id(self) -> (r: Result<Option<[u8; 8]>, OptionError>)
        ensures
            is_exact(self.0, OptionError::ProfileIdLength(given_len(self.0)), r),
    {
        exact(&self.0, OptionError::ProfileIdLength(len_of(&self.0)))
    }
}

/// Raw bytes to put in place of the online creator ID.
pub struct OnlineCreatorBytes(pub Option<Vec<u8>>);

impl OnlineCreatorBytes {
    pub fn into_online_creator(self) -> (r: Result<Option<[u8; 8]>, OptionError>)
        ensures
            is_exact(self.0, OptionError::OnlineCreatorLength(given_len(self.0)), r),
    {
        exact(&self.0, OptionError::OnlineCreatorLength(len_of(&self.0)))
    }
}

/// How the account of a profile package is to be changed.
pub struct ProfileTransferOptions {
    pub new_gamertag: Option<String>,
    pub new_xuid_bytes: ProfileIdBytes,
}

/// The identity fields of a package, as raw bytes.
pub struct IdentityBytesOverrides {
    pub console_id: ConsoleIdBytes,
    pub profile_id: ProfileIdBytes,
    pub device_id: DeviceIdBytes,
    pub online_creator: OnlineCreatorBytes,
}

/// What changes in an account: what is none stays as it is.
pub struct AccountChange {
    pub gamertag: Option<String>,
    pub xuid_online: Option<u64>,
}

/// Bytes that are there but not `n` of them.
pub open spec fn wrong_len(bytes: Option<Vec<u8>>, n: int) -> bool {
    bytes is Some && bytes->Some_0@.len() != n
}

/// The first of the options that is refused, in the order in which they are looked at.
pub open spec fn option_fault(
    ids: IdentityBytesOverrides,
    transfer: Option<ProfileTransferOptions>,
    image_backed: bool,
) -> Option<OptionError> {
    if wrong_len(ids.console_id.0, 5) {
        Some(OptionError::ConsoleIdLength(given_len(ids.console_id.0)))
    } else if wrong_len(ids.profile_id.0, 8) {
        Some(OptionError::ProfileIdLength(given_len(ids.profile_id.0)))
    } else if wrong_len(ids.device_id.0, 20) {
        Some(OptionError::DeviceIdLength(given_len(ids.device_id.0)))
    } else if wrong_len(ids.online_creator.0, 8) {
        Some(OptionError::OnlineCreatorLength(given_len(ids.online_creator.0)))
    } else {
        match transfer {
            None => None,
            Some(t) => if wrong_len(t.new_xuid_bytes.0, 8) {
                Some(OptionError::ProfileIdLength(given_len(t.new_xuid_bytes.0)))
            } else if t.new_gamertag is None && t.new_xuid_bytes.0 is None {
                Some(OptionError::TransferChangesNothing)
            } else if image_backed {
                Some(OptionError::TransferNeedsExtracted)
            } else {
                None
            },
        }
    }
}

/// An identity field holds the bytes that were given, if any were.
pub open spec fn given_field<const N: usize>(f: Option<[u8; N]>, bytes: Option<Vec<u8>>) -> bool {
    match bytes {
        Some(b) => f matches Some(a) && a@ == b@,
        None => f is None,
    }
}

/// `r` is what the options come to: the first that is refused, or what they ask for.
pub open spec fn is_resolved(
    ids: IdentityBytesOverrides,
    transfer: Option<ProfileTransferOptions>,
    image_backed: bool,
    r: Result<(IdentityOverrides, Option<AccountChange>), OptionError>,
) -> bool {
    match r {
        Err(e) => option_fault(ids, transfer, image_backed) == Some(e),
        Ok((id, change)) => {
            &&& option_fault(ids, transfer, image_backed) is None
            &&& given_field(id.console_id, ids.console_id.0)
            &&& given_field(id.profile_id, ids.profile_id.0)
            &&& given_field(id.device_id, ids.device_id.0)
            &&& given_field(id.online_creator, ids.online_creator.0)
            &&& match transfer {
                None => change is None,
                Some(t) => {
                    &&& change is Some
                    &&& change->Some_0.gamertag == t.new_gamertag
                    &&& match t.new_xuid_bytes.0 {
                        Some(b) => change->Some_0.xuid_online == Some(be_val(b@) as u64),
                        None => change->Some_0.xuid_online is None,
                    }
                },
            }
        },
    }
}

/// The identity fields to write and the change to make to the account first, if a transfer asks
/// for one.
pub fn resolve_identity(
    ids: IdentityBytesOverrides,
    transfer: Option<ProfileTransferOptions>,
    image_backed: bool,
) -> (r: Result<(IdentityOverrides, Option<AccountChange>), OptionError>)
    ensures
        is_resolved(ids, transfer, image_backed, r),
{
    let console_id = match ids.console_id.into_console_id() {
        Ok(x) => x,
        Err(e) => {
            return Err(e);
        },
    };
    let profile_id = match ids.profile_id.into_profile_id() {
        Ok(x) => x,
        Err(e) => {
            return Err(e);
        },
    };
    let device_id = match ids.device_id.into_device_id() {
        Ok(x) => x,
        Err(e) => {
            return Err(e);
        },
    };
    let online_creator = match ids.online_creator.into_online_creator() {
        Ok(x) => x,
        Err(e) => {
            return Err(e);
        },
    };
    let change = match transfer {
        None => None,
        Some(t) => {
            let xuid = match t.new_xuid_bytes.into_profile_id() {
                Ok(x) => x,
                Err(e) => {
                    return Err(e);
                },
            };
            if t.new_gamertag.is_none() && xuid.is_none() {
                return Err(OptionError::TransferChangesNothing);
            }
            if image_backed {
                return Err(OptionError::TransferNeedsExtracted);
            }
            let xuid_online: Option<u64> = match xuid {
                Some(a) => {
                    assert(crate::bytes::field(a@, 0, 8) =~= a@);
                    Some(get_be(&a, 0, 8))
                },
                None => None,
            };
            Some(AccountChange { gamertag: t.new_gamertag, xuid_online })
        },
    };
    Ok((IdentityOverrides { console_id, profile_id, device_id, online_creator }, change))
}

/// The identity fields once the account was changed: its profile ID takes the place of the one
/// that was given.
pub fn with_transferred_profile(id: IdentityOverrides, profile_id: [u8; 8]) -> (r:
    IdentityOverrides)
    ensures
        r.profile_id == Some(profile_id),
        r.console_id == id.console_id,
        r.device_id == id.device_id,
        r.online_creator == id.online_creator,
{
    IdentityOverrides {
        console_id: id.console_id,
        profile_id: Some(profile_id),
        device_id: id.device_id,
        online_creator: id.online_creator,
    }
}

/// The largest integer up to which a double holds every integer exactly.
pub const MAX_EXACT_INTEGER: u64 = 9_007_199_254_740_992;

/// True if a double holds every integer up to `v` exactly.
pub fn is_exact_number(v: u64) -> (r: bool)
    ensures
        r == (v <= MAX_EXACT_INTEGER),
{
    v <= MAX_EXACT_INTEGER
}

/// Optional bytes that are there have this length.
pub open spec fn has_len(bytes: Option<Vec<u8>>, n: int) -> bool {
    bytes matches Some(b) ==> b@.len() == n
}

/// Options are taken if each field that is given has its length, 5 bytes for a console, 8 for a
/// profile, 20 for a device and 8 for a creator, and a transfer changes something of a source that
/// is no image; and only then.
pub proof fn fitting_options_are_taken(
    ids: IdentityBytesOverrides,
    transfer: Option<ProfileTransferOptions>,
    image_backed: bool,
    r: Result<(IdentityOverrides, Option<AccountChange>), OptionError>,
)
    requires
        is_resolved(ids, transfer, image_backed, r),
    ensures
        r is Ok <==> {
            &&& has_len(ids.console_id.0, 5)
            &&& has_len(ids.profile_id.0, 8)
            &&& has_len(ids.device_id.0, 20)
            &&& has_len(ids.online_creator.0, 8)
            &&& transfer matches Some(t) ==> {
                &&& has_len(t.new_xuid_bytes.0, 8)
                &&& t.new_gamertag is Some || t.new_xuid_bytes.0 is Some
                &&& !image_backed
            }
        },
{
}

/// What is given is taken as it is, and what is not given stays away. The number of an account is
/// read from its eight bytes, most significant first.
pub proof fn given_options_are_kept(
    ids: IdentityBytesOverrides,
    transfer: Option<ProfileTransferOptions>,
    image_backed: bool,
    id: IdentityOverrides,
    change: Option<AccountChange>,
)
    requires
        is_resolved(
            ids,
            transfer,
            image_backed,
            Ok::<(IdentityOverrides, Option<AccountChange>), OptionError>((id, change)),
        ),
    ensures
        id.console_id is Some <==> ids.console_id.0 is Some,
        id.profile_id is Some <==> ids.profile_id.0 is Some,
        id.device_id is Some <==> ids.device_id.0 is Some,
        id.online_creator is Some <==> ids.online_creator.0 is Some,
        id.console_id is Some ==> id.console_id->0@ == ids.console_id.0->0@,
        id.profile_id is Some ==> id.profile_id->0@ == ids.profile_id.0->0@,
        id.device_id is Some ==> id.device_id->0@ == ids.device_id.0->0@,
        id.online_creator is Some ==> id.online_creator->0@ == ids.online_creator.0->0@,
        change is Some <==> transfer is Some,
        transfer matches Some(t) ==> {
            let b = t.new_xuid_bytes.0->0@;
            &&& change->0.gamertag == t.new_gamertag
            &&& change->0.xuid_online is Some <==> t.new_xuid_bytes.0 is Some
            &&& change->0.xuid_online is Some ==> change->0.xuid_online->0 == b[0]
                * 0x100_0000_0000_0000 + b[1] * 0x1_0000_0000_0000 + b[2] * 0x100_0000_0000 + b[3]
                * 0x1_0000_0000 + b[4] * 0x100_0000 + b[5] * 0x1_0000 + b[6] * 0x100 + b[7]
        },
{
    if let Some(t) = transfer {
        if t.new_xuid_bytes.0 is Some {
            let b = t.new_xuid_bytes.0->0@;
            assert(b.len() == 8);
            lemma_eight(b);
        }
    }
}

proof fn lemma_eight(b: Seq<u8>)
    requires
        b.len() == 8,
    ensures
        be_val(b) == b[0] * 0x100_0000_0000_0000 + b[1] * 0x1_0000_0000_0000 + b[2]
            * 0x100_0000_0000 + b[3] * 0x1_0000_0000 + b[4] * 0x100_0000 + b[5] * 0x1_0000 + b[6]
            * 0x100 + b[7],
{
    reveal_with_fuel(be_val, 9);
    let b7 = b.drop_last();
    let b6 = b7.drop_last();
    let b5 = b6.drop_last();
    let b4 = b5.drop_last();
    let b3 = b4.drop_last();
    let b2 = b3.drop_last();
    let b1 = b2.drop_last();
    assert(b1.drop_last().len() == 0);
    assert(b7.last() == b[6] && b6.last() == b[5] && b5.last() == b[4] && b4.last() == b[3]);
    assert(b3.last() == b[2] && b2.last() == b[1] && b1.last() == b[0]);
}

/// The first field with a wrong length is named, with that length, in the order console, profile,
/// device, creator; a transfer is looked at last.
pub proof fn first_wrong_length_is_named(
    ids: IdentityBytesOverrides,
    transfer: Option<ProfileTransferOptions>,
    image_backed: bool,
    e: OptionError,
)
    requires
        is_resolved(
            ids,
            transfer,
            image_backed,
            Err::<(IdentityOverrides, Option<AccountChange>), OptionError>(e),
        ),
    ensures
        e matches OptionError::ConsoleIdLength(n) ==> n != 5 && ids.console_id.0 is Some
            && ids.console_id.0->0@.len() == n,
        !has_len(ids.console_id.0, 5) ==> e is ConsoleIdLength,
        has_len(ids.console_id.0, 5) && !has_len(ids.profile_id.0, 8) ==> e
            == OptionError::ProfileIdLength(ids.profile_id.0->0@.len() as usize),
        e matches OptionError::DeviceIdLength(n) ==> n != 20 && ids.device_id.0 is Some
            && ids.device_id.0->0@.len() == n,
        has_len(ids.console_id.0, 5) && has_len(ids.profile_id.0, 8) && !has_len(
            ids.device_id.0,
            20,
        ) ==> e is DeviceIdLength,
        e matches OptionError::OnlineCreatorLength(n) ==> n != 8 && ids.online_creator.0 is Some
            && ids.online_creator.0->0@.len() == n,
        has_len(ids.console_id.0, 5) && has_len(ids.profile_id.0, 8) && has_len(
            ids.device_id.0,
            20,
        ) && !has_len(ids.online_creator.0, 8) ==> e is OnlineCreatorLength,
        e is TransferChangesNothing ==> transfer is Some && transfer->0.new_gamertag is None
            && transfer->0.new_xuid_bytes.0 is None,
        e is TransferNeedsExtracted ==> transfer is Some && image_backed,
        !(e is SourceUnresolved),
{
    if let Some(b) = ids.console_id.0 {
        assert(b.len() == b@.len());
    }
    if let Some(b) = ids.profile_id.0 {
        assert(b.len() == b@.len());
    }
    if let Some(b) = ids.device_id.0 {
        assert(b.len() == b@.len());
    }
    if let Some(b) = ids.online_creator.0 {
        assert(b.len() == b@.len());
    }
}

/// Bytes that are given make a field of their own, if they are as many as it has; if they are not,
/// they are refused, and nothing is made of none.
pub proof fn fitting_bytes_make_a_field<const N: usize>(
    bytes: Option<Vec<u8>>,
    e: OptionError,
    r: Result<Option<[u8; N]>, OptionError>,
)
    requires
        is_exact(bytes, e, r),
    ensures
        r is Ok <==> has_len(bytes, N as int),
        r is Ok ==> (r->Ok_0 is Some <==> bytes is Some),
        r is Ok && bytes is Some ==> r->Ok_0->0@ == bytes->0@,
        r is Err ==> r->Err_0 == e,
{
}

/// A double holds every integer exactly up to two to the power of 53.
pub proof fn exact_numbers_end_at_two_to_the_53rd()
    ensures
        MAX_EXACT_INTEGER == vstd::arithmetic::power2::pow2(53),
{
    vstd::arithmetic::power2::lemma2_to64();
    vstd::arithmetic::power2::lemma2_to64_rest();
}

} // verus!

//! Making the keys of a link.
use crate::bytes::append_bytes;
use crate::crypto::{
    box_keypair, box_public_key, box_seed_keypair, box_seed_secret, derive_seed, password_seed,
    BOX_KEY_BYTES, BOX_SEED_BYTES,
};
use vstd::prelude::*;

verus! {

/// The key files of the two ends: each its own secret key and the other's public key.
pub struct LinkKeys {
    pub drone_key: Vec<u8>,
    pub gs_key: Vec<u8>,
}

/// The key file of an end with secret key `own` that talks to one with secret key `other`.
pub open spec fn key_file(own: Seq<u8>, other: Seq<u8>) -> Seq<u8> {
    own + box_public_key(other)
}

/// The salt of every password.
pub open spec fn password_salt() -> Seq<u8> {
    seq![
        0x77u8, 0x69, 0x66, 0x69, 0x62, 0x72, 0x6f, 0x61, 0x64, 0x63, 0x61, 0x73, 0x74, 0x6b, 0x65,
        0x79,
    ]
}

/// Puts the key files together.
pub fn key_files(
    drone_publickey: &[u8],
    drone_secretkey: &[u8],
    gs_publickey: &[u8],
    gs_secretkey: &[u8],
) -> (k: LinkKeys)
    ensures
        k.drone_key@ == drone_secretkey@ + gs_publickey@,
        k.gs_key@ == gs_secretkey@ + drone_publickey@,
{
    let mut drone_key: Vec<u8> = Vec::new();
    append_bytes(&mut drone_key, drone_secretkey);
    append_bytes(&mut drone_key, gs_publickey);
    assert(drone_key@ =~= drone_secretkey@ + gs_publickey@);
    let mut gs_key: Vec<u8> = Vec::new();
    append_bytes(&mut gs_key, gs_secretkey);
    append_bytes(&mut gs_key, drone_publickey);
    assert(gs_key@ =~= gs_secretkey@ + drone_publickey@);
    LinkKeys { drone_key, gs_key }
}

/// Keys from a seed: its first half makes the drone's, its second half the ground station's.
pub fn keys_from_seed(seed: &[u8]) -> (k: LinkKeys)
    requires
        seed@.len() == 2 * BOX_SEED_BYTES,
    ensures
        ({
            let drone = box_seed_secret(seed@.subrange(0, 32));
            let gs = box_seed_secret(seed@.subrange(32, 64));
            &&& drone.len() == BOX_KEY_BYTES
            &&& gs.len() == BOX_KEY_BYTES
            &&& k.drone_key@ == key_file(drone, gs)
            &&& k.gs_key@ == key_file(gs, drone)
        }),
        k.drone_key@.len() == 2 * BOX_KEY_BYTES,
        k.gs_key@.len() == 2 * BOX_KEY_BYTES,
{
    let first: Vec<u8> = crate::bytes::copy_range(seed, 0, BOX_SEED_BYTES);
    let second: Vec<u8> = crate::bytes::copy_range(seed, BOX_SEED_BYTES, 2 * BOX_SEED_BYTES);
    let (drone_publickey, drone_secretkey) = box_seed_keypair(&first);
    let (gs_publickey, gs_secretkey) = box_seed_keypair(&second);
    key_files(&drone_publickey, &drone_secretkey, &gs_publickey, &gs_secretkey)
}

/// Keys from what a password has been derived to: none if there is no seed.
pub fn keys_from_derived(seed: Option<Vec<u8>>) -> (k: Option<LinkKeys>)
    requires
        seed matches Some(s) ==> s@.len() == 2 * BOX_SEED_BYTES,
    ensures
        match seed {
            None => k is None,
            Some(s) => {
                let drone = box_seed_secret(s@.subrange(0, 32));
                let gs = box_seed_secret(s@.subrange(32, 64));
                &&& k is Some
                &&& drone.len() == BOX_KEY_BYTES
                &&& gs.len() == BOX_KEY_BYTES
                &&& k->0.drone_key@ == key_file(drone, gs)
                &&& k->0.gs_key@ == key_file(gs, drone)
                &&& k->0.drone_key@.len() == 2 * BOX_KEY_BYTES
                &&& k->0.gs_key@.len() == 2 * BOX_KEY_BYTES
            },
        },
{
    match seed {
        Some(s) => Some(keys_from_seed(&s)),
        None => None,
    }
}

/// Keys from a password.  There are none where the derivation fails for want of memory.
pub fn keys_from_password(password: &[u8]) -> (k: Option<LinkKeys>)
    ensures
        k matches Some(keys) ==> {
            let seed = password_seed(password@, password_salt());
            let drone = box_seed_secret(seed.subrange(0, 32));
            let gs = box_seed_secret(seed.subrange(32, 64));
            &&& drone.len() == BOX_KEY_BYTES
            &&& gs.len() == BOX_KEY_BYTES
            &&& keys.drone_key@ == key_file(drone, gs)
            &&& keys.gs_key@ == key_file(gs, drone)
            &&& keys.drone_key@.len() == 2 * BOX_KEY_BYTES
            &&& keys.gs_key@.len() == 2 * BOX_KEY_BYTES
        },
{
    let salt: [u8; 16] = [
        0x77, 0x69, 0x66, 0x69, 0x62, 0x72, 0x6f, 0x61, 0x64, 0x63, 0x61, 0x73, 0x74, 0x6b, 0x65,
        0x79,
    ];
    assert(salt@ =~= password_salt());
    keys_from_derived(derive_seed(password, &salt))
}

/// New keys, left to chance.
pub fn random_keys() -> (k: LinkKeys)
    ensures
        exists|drone: Seq<u8>, gs: Seq<u8>|
            #![trigger key_file(drone, gs)]
            drone.len() == BOX_KEY_BYTES && gs.len() == BOX_KEY_BYTES && k.drone_key@ == key_file(
                drone,
                gs,
            ) && k.gs_key@ == key_file(gs, drone),
        k.drone_key@.len() == 2 * BOX_KEY_BYTES,
        k.gs_key@.len() == 2 * BOX_KEY_BYTES,
{
    let (drone_publickey, drone_secretkey) = box_keypair();
    let (gs_publickey, gs_secretkey) = box_keypair();
    let k = key_files(&drone_publickey, &drone_secretkey, &gs_publickey, &gs_secretkey);
    assert(k.drone_key@ == key_file(drone_secretkey@, gs_secretkey@));
    k
}

/// The two key files fit together: each end has the public key to the other's secret key.
pub proof fn lemma_keys_fit(drone: Seq<u8>, gs: Seq<u8>, drone_key: Seq<u8>, gs_key: Seq<u8>)
    requires
        drone.len() == BOX_KEY_BYTES,
        gs.len() == BOX_KEY_BYTES,
        drone_key == key_file(drone, gs),
        gs_key == key_file(gs, drone),
        drone_key.len() == 2 * BOX_KEY_BYTES,
        gs_key.len() == 2 * BOX_KEY_BYTES,
    ensures
        drone_key.subrange(32, 64) == box_public_key(gs_key.subrange(0, 32)),
        gs_key.subrange(32, 64) == box_public_key(drone_key.subrange(0, 32)),
{
    assert(drone_key.subrange(0, 32) =~= drone);
    assert(gs_key.subrange(0, 32) =~= gs);
    assert(drone_key.subrange(32, 64) =~= box_public_key(gs));
    assert(gs_key.subrange(32, 64) =~= box_public_key(drone));
}

/// The salt spells a word.
pub proof fn lemma_salt_spelled()
    ensures
        password_salt().len() == "wifibroadcastkey"@.len(),
        forall|i: int|
            0 <= i < password_salt().len() ==> #[trigger] password_salt()[i]
                == "wifibroadcastkey"@[i] as u8,
{
    reveal_strlit("wifibroadcastkey");
}

} // verus!

//! What the settings in a radiotap header are read back as.
use crate::tx_frame::{radiotap_bytes, RadioError};
use vstd::prelude::*;

verus! {

/// Two flags, a switch and a number of two bits, packed into a byte, are read back by their masks.
proof fn lemma_ht_bits(bw: u8, sgi: u8, ldpc: u8, stbc: u8)
    by (bit_vector)
    requires
        bw <= 1,
        sgi <= 1,
        ldpc <= 1,
        stbc <= 3,
    ensures
        ((bw + 4 * sgi + 16 * ldpc + 32 * stbc) as u8) & 0x03 == bw,
        (((bw + 4 * sgi + 16 * ldpc + 32 * stbc) as u8) & 0x04 != 0) == (sgi == 1),
        (((bw + 4 * sgi + 16 * ldpc + 32 * stbc) as u8) & 0x10 != 0) == (ldpc == 1),
        (((bw + 4 * sgi + 16 * ldpc + 32 * stbc) as u8) & 0x60) >> 5 == stbc,
        ((bw + 4 * sgi + 16 * ldpc + 32 * stbc) as u8) & 0x88 == 0,
{
}

/// Two numbers of four bits, packed into a byte, and the two flags of a VHT frame.
proof fn lemma_vht_bits(mcs: u8, nss: u8, stbc: u8, sgi: u8)
    by (bit_vector)
    requires
        stbc <= 1,
        sgi <= 1,
    ensures
        ((mcs % 16 * 16 + nss % 16) as u8) >> 4 == mcs & 0x0f,
        ((mcs % 16 * 16 + nss % 16) as u8) & 0x0f == nss & 0x0f,
        (((4 * sgi + stbc) as u8) & 0x01 != 0) == (stbc == 1),
        (((4 * sgi + stbc) as u8) & 0x04 != 0) == (sgi == 1),
        ((4 * sgi + stbc) as u8) & 0xfa == 0,
{
}

/// An HT header says what was asked for: its flags hold the code of the bandwidth, the guard interval,
/// the code and the number of STBC streams, each under its mask, and the last byte is the index of the
/// rate.  All else in it is the same for all settings.
pub proof fn lemma_ht_settings_read_back(
    stbc: u8,
    ldpc: bool,
    short_gi: bool,
    bandwidth: u8,
    mcs_index: u8,
    vht_nss: u8,
)
    ensures
        ({
            let r = radiotap_bytes(stbc, ldpc, short_gi, bandwidth, mcs_index, false, vht_nss);
            let known = bandwidth == 10 || bandwidth == 20 || bandwidth == 40;
            &&& r is Ok <==> known && stbc <= 3
            &&& !known ==> r == Err::<Seq<u8>, RadioError>(RadioError::HtBandwidth(bandwidth))
            &&& known && stbc > 3 ==> r == Err::<Seq<u8>, RadioError>(RadioError::HtStbc(stbc))
            &&& r matches Ok(h) ==> {
                &&& h.len() == 13
                &&& h.take(11) == seq![0u8, 0, 0x0d, 0, 0, 0x80, 0x08, 0, 0x08, 0, 0x37]
                &&& h[11] & 0x03 == (if bandwidth == 40 {
                    1u8
                } else {
                    0u8
                })
                &&& (h[11] & 0x04 != 0) == short_gi
                &&& (h[11] & 0x10 != 0) == ldpc
                &&& (h[11] & 0x60) >> 5 == stbc
                &&& h[11] & 0x88 == 0
                &&& h[12] == mcs_index
            }
        }),
{
    let bw: u8 = if bandwidth == 40 {
        1
    } else {
        0
    };
    let sgi: u8 = if short_gi {
        1
    } else {
        0
    };
    let fec: u8 = if ldpc {
        1
    } else {
        0
    };
    if stbc <= 3 {
        lemma_ht_bits(bw, sgi, fec, stbc);
        let r = radiotap_bytes(stbc, ldpc, short_gi, bandwidth, mcs_index, false, vht_nss);
        if r is Ok {
            assert(r->Ok_0[11] == (bw + 4 * sgi + 16 * fec + 32 * stbc) as u8);
            assert(r->Ok_0.take(11) =~= seq![
                0u8, 0, 0x0d, 0, 0, 0x80, 0x08, 0, 0x08, 0, 0x37,
            ]);
        }
    }
}

/// A VHT header says what was asked for: bandwidth, guard interval, STBC, code, the index of the rate
/// and the number of streams less one.  All else in it is the same for all settings.
pub proof fn lemma_vht_settings_read_back(
    stbc: u8,
    ldpc: bool,
    short_gi: bool,
    bandwidth: u8,
    mcs_index: u8,
    vht_nss: u8,
)
    ensures
        ({
            let r = radiotap_bytes(stbc, ldpc, short_gi, bandwidth, mcs_index, true, vht_nss);
            let known = bandwidth == 10 || bandwidth == 20 || bandwidth == 40 || bandwidth == 80
                || bandwidth == 160;
            &&& r is Ok <==> known
            &&& !known ==> r == Err::<Seq<u8>, RadioError>(RadioError::VhtBandwidth(bandwidth))
            &&& r matches Ok(h) ==> {
                &&& h.len() == 22
                &&& h.take(12) == seq![0u8, 0, 0x16, 0, 0, 0x80, 0x20, 0, 0x08, 0, 0x45, 0]
                &&& (h[12] & 0x01 != 0) == (stbc > 0)
                &&& (h[12] & 0x04 != 0) == short_gi
                &&& h[12] & 0xfa == 0
                &&& h[13] == (if bandwidth == 160 {
                    11u8
                } else if bandwidth == 80 {
                    4u8
                } else if bandwidth == 40 {
                    1u8
                } else {
                    0u8
                })
                &&& h[14] >> 4 == mcs_index & 0x0f
                &&& h[14] & 0x0f == vht_nss.wrapping_sub(1) & 0x0f
                &&& h.subrange(15, 18) == seq![0u8, 0, 0]
                &&& h[18] == (if ldpc {
                    1u8
                } else {
                    0u8
                })
                &&& h.skip(19) == seq![0u8, 0, 0]
            }
        }),
{
    let sgi: u8 = if short_gi {
        1
    } else {
        0
    };
    let streams: u8 = if stbc > 0 {
        1
    } else {
        0
    };
    lemma_vht_bits(mcs_index, vht_nss.wrapping_sub(1), streams, sgi);
    let r = radiotap_bytes(stbc, ldpc, short_gi, bandwidth, mcs_index, true, vht_nss);
    if r is Ok {
        let h = r->Ok_0;
        assert(h[12] == (4 * sgi + streams) as u8);
        assert(h.take(12) =~= seq![0u8, 0, 0x16, 0, 0, 0x80, 0x20, 0, 0x08, 0, 0x45, 0]);
        assert(h.subrange(15, 18) =~= seq![0u8, 0, 0]);
        assert(h.skip(19) =~= seq![0u8, 0, 0]);
    }
}

/// Different settings make different headers, but for the bandwidths of 10 and 20, which share a code.
pub proof fn lemma_ht_settings_distinct(
    a: (u8, bool, bool, u8, u8),
    b: (u8, bool, bool, u8, u8),
    nss: (u8, u8),
)
    requires
        ({
            let r = radiotap_bytes(a.0, a.1, a.2, a.3, a.4, false, nss.0);
            r is Ok && r == radiotap_bytes(b.0, b.1, b.2, b.3, b.4, false, nss.1)
        }),
    ensures
        a.0 == b.0,
        a.1 == b.1,
        a.2 == b.2,
        a.3 == b.3 || (a.3 != 40 && b.3 != 40),
        a.4 == b.4,
{
    lemma_ht_settings_read_back(a.0, a.1, a.2, a.3, a.4, nss.0);
    lemma_ht_settings_read_back(b.0, b.1, b.2, b.3, b.4, nss.1);
}

} // verus!

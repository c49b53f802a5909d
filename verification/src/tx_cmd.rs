//! Commands to a running transmitter.
use crate::bytes::{append_bytes, be_bytes, be_value, from_be_bytes, to_be_bytes};
use crate::bytes::{
    lemma_be4, lemma_be_len, lemma_be_round_trip, lemma_be_value4, lemma_byte_range,
};
use vstd::prelude::*;
use vstd::string::*;

verus! {

pub const CMD_SET_FEC: u8 = 1;
pub const CMD_SET_RADIO: u8 = 2;
pub const CMD_GET_FEC: u8 = 3;
pub const CMD_GET_RADIO: u8 = 4;

/// Bytes before the results of a response.
pub const CMD_RESP_HEADER: usize = 8;

/// The largest response.
pub const CMD_RESP_SIZE: usize = 15;

#[derive(Clone, Copy, Debug, PartialEq, Eq, Structural)]
pub struct CmdSetFec {
    pub k: u8,
    pub n: u8,
}

#[derive(Clone, Copy, Debug, PartialEq, Eq, Structural)]
pub struct CmdSetRadio {
    pub stbc: u8,
    pub ldpc: bool,
    pub short_gi: bool,
    pub bandwidth: u8,
    pub mcs_index: u8,
    pub vht_mode: bool,
    pub vht_nss: u8,
}

/// The arguments of a request.
#[derive(Clone, Copy, Debug, PartialEq, Eq, Structural)]
pub enum CmdReqArgs {
    Nothing,
    SetFec(CmdSetFec),
    SetRadio(CmdSetRadio),
}

#[derive(Clone, Copy, Debug, PartialEq, Eq, Structural)]
pub struct CmdReq {
    pub req_id: u32,
    pub cmd_id: u8,
    pub u: CmdReqArgs,
}

#[derive(Clone, Copy, Debug, PartialEq, Eq, Structural)]
pub struct CmdGetFec {
    pub k: u8,
    pub n: u8,
}

#[derive(Clone, Copy, Debug, PartialEq, Eq, Structural)]
pub struct CmdGetRadio {
    pub stbc: u8,
    pub ldpc: bool,
    pub short_gi: bool,
    pub bandwidth: u8,
    pub mcs_index: u8,
    pub vht_mode: bool,
    pub vht_nss: u8,
}

/// The results of a response.
#[derive(Clone, Copy, Debug, PartialEq, Eq, Structural)]
pub enum CmdRespArgs {
    Nothing,
    GetFec(CmdGetFec),
    GetRadio(CmdGetRadio),
}

#[derive(Clone, Copy, Debug, PartialEq, Eq, Structural)]
pub struct CmdResp {
    pub req_id: u32,
    pub rc: u32,
    pub u: CmdRespArgs,
}

/// Why a response is not taken.
#[derive(Clone, Copy, Debug, PartialEq, Eq, Structural)]
pub enum CmdError {
    InvalidResponse,
    /// The command failed with this code.
    Failed(u32),
}

pub open spec fn bool_byte(b: bool) -> u8 {
    if b {
        1
    } else {
        0
    }
}

fn byte_of_bool(b: bool) -> (r: u8)
    ensures
        r == bool_byte(b),
{
    if b {
        1
    } else {
        0
    }
}

impl CmdReqArgs {
    pub open spec fn bytes(&self) -> Seq<u8> {
        match *self {
            CmdReqArgs::Nothing => Seq::empty(),
            CmdReqArgs::SetFec(a) => seq![a.k, a.n],
            CmdReqArgs::SetRadio(a) => seq![
                a.stbc,
                bool_byte(a.ldpc),
                bool_byte(a.short_gi),
                a.bandwidth,
                a.mcs_index,
                bool_byte(a.vht_mode),
                a.vht_nss,
            ],
        }
    }
}

impl CmdReq {
    /// The request on the wire: its number, highest byte first, the command and its arguments.
    pub open spec fn bytes(&self) -> Seq<u8> {
        be_bytes(self.req_id as nat, 4) + seq![self.cmd_id] + self.u.bytes()
    }

    pub fn zeroed() -> (r: CmdReq)
        ensures
            r.req_id == 0,
            r.cmd_id == 0,
            r.u == CmdReqArgs::Nothing,
    {
        CmdReq { req_id: 0, cmd_id: 0, u: CmdReqArgs::Nothing }
    }

    pub fn to_bytes(&self) -> (out: Vec<u8>)
        ensures
            out@ == self.bytes(),
    {
        let mut out: Vec<u8> = to_be_bytes(self.req_id as u64, 4);
        out.push(self.cmd_id);
        match self.u {
            CmdReqArgs::Nothing => {},
            CmdReqArgs::SetFec(a) => {
                out.push(a.k);
                out.push(a.n);
            },
            CmdReqArgs::SetRadio(a) => {
                out.push(a.stbc);
                out.push(byte_of_bool(a.ldpc));
                out.push(byte_of_bool(a.short_gi));
                out.push(a.bandwidth);
                out.push(a.mcs_index);
                out.push(byte_of_bool(a.vht_mode));
                out.push(a.vht_nss);
            },
        }
        assert(out@ =~= self.bytes());
        out
    }

    pub fn set_fec(req_id: u32, k: Option<u8>, n: Option<u8>) -> (r: CmdReq)
        ensures
            r == (CmdReq {
                req_id,
                cmd_id: CMD_SET_FEC,
                u: CmdReqArgs::SetFec(
                    CmdSetFec {
                        k: if k is Some {
                            k->0
                        } else {
                            8
                        },
                        n: if n is Some {
                            n->0
                        } else {
                            12
                        },
                    },
                ),
            }),
    {
        CmdReq {
            req_id,
            cmd_id: CMD_SET_FEC,
            u: CmdReqArgs::SetFec(CmdSetFec { k: k.unwrap_or(8), n: n.unwrap_or(12) }),
        }
    }

    pub fn set_radio(req_id: u32, options: &RadioOptions) -> (r: CmdReq)
        ensures
            r.req_id == req_id,
            r.cmd_id == CMD_SET_RADIO,
            r.u == CmdReqArgs::SetRadio(radio_settings(*options)),
            r.u matches CmdReqArgs::SetRadio(s) && {
                let bandwidth = match options.bandwidth {
                    Some(b) => b,
                    None => 20,
                };
                &&& s.vht_mode <==> options.vht_mode || bandwidth >= 80
                &&& 0 <= bandwidth < 256 ==> s.bandwidth == bandwidth
                &&& s.ldpc <==> (options.ldpc matches Some(l) && l != 0)
                &&& s.short_gi <==> options.short_gi == Some(true)
                &&& options.stbc matches Some(x) ==> (0 <= x < 256 ==> s.stbc == x)
                &&& options.mcs_index matches Some(x) ==> (0 <= x < 256 ==> s.mcs_index == x)
                &&& options.vht_nss matches Some(x) ==> (0 <= x < 256 ==> s.vht_nss == x)
                &&& options.stbc is None ==> s.stbc == 0
                &&& options.mcs_index is None ==> s.mcs_index == 1
                &&& options.vht_nss is None ==> s.vht_nss == 1
            },
    {
        let bandwidth: i32 = options.bandwidth.unwrap_or(20);
        let ldpc: i32 = options.ldpc.unwrap_or(0);
        CmdReq {
            req_id,
            cmd_id: CMD_SET_RADIO,
            u: CmdReqArgs::SetRadio(
                CmdSetRadio {
                    stbc: options.stbc.unwrap_or(0) as u8,
                    ldpc: ldpc != 0,
                    short_gi: options.short_gi.unwrap_or(false),
                    bandwidth: bandwidth as u8,
                    mcs_index: options.mcs_index.unwrap_or(1) as u8,
                    vht_mode: options.vht_mode || bandwidth >= 80,
                    vht_nss: options.vht_nss.unwrap_or(1) as u8,
                },
            ),
        }
    }

    pub fn get_fec(req_id: u32) -> (r: CmdReq)
        ensures
            r == (CmdReq { req_id, cmd_id: CMD_GET_FEC, u: CmdReqArgs::Nothing }),
    {
        CmdReq { req_id, cmd_id: CMD_GET_FEC, u: CmdReqArgs::Nothing }
    }

    pub fn get_radio(req_id: u32) -> (r: CmdReq)
        ensures
            r == (CmdReq { req_id, cmd_id: CMD_GET_RADIO, u: CmdReqArgs::Nothing }),
    {
        CmdReq { req_id, cmd_id: CMD_GET_RADIO, u: CmdReqArgs::Nothing }
    }
}

/// Radio settings as they were given; what is not given has a default.
#[derive(Clone, Copy, Debug, PartialEq, Eq, Structural)]
pub struct RadioOptions {
    pub bandwidth: Option<i32>,
    pub short_gi: Option<bool>,
    pub stbc: Option<i32>,
    pub ldpc: Option<i32>,
    pub mcs_index: Option<i32>,
    pub vht_nss: Option<i32>,
    pub vht_mode: bool,
}

/// The settings that the options come to.  Bandwidths from 80 up imply VHT mode; numbers keep their
/// lowest byte.
pub open spec fn radio_settings(o: RadioOptions) -> CmdSetRadio {
    let bandwidth = if o.bandwidth is Some {
        o.bandwidth->0
    } else {
        20
    };
    CmdSetRadio {
        stbc: (if o.stbc is Some {
            o.stbc->0
        } else {
            0
        }) as u8,
        ldpc: o.ldpc is Some && o.ldpc->0 != 0,
        short_gi: o.short_gi is Some && o.short_gi->0,
        bandwidth: bandwidth as u8,
        mcs_index: (if o.mcs_index is Some {
            o.mcs_index->0
        } else {
            1
        }) as u8,
        vht_mode: o.vht_mode || bandwidth >= 80,
        vht_nss: (if o.vht_nss is Some {
            o.vht_nss->0
        } else {
            1
        }) as u8,
    }
}

/// Every option that is given reaches the request as it is, as far as a byte holds it, and each that is
/// not given has its default.  VHT mode is asked for exactly if the option is given or the bandwidth is
/// one that only VHT has.
pub proof fn lemma_options_reach_request(o: RadioOptions)
    ensures
        o.bandwidth matches Some(b) ==> (0 <= b < 256 ==> radio_settings(o).bandwidth == b),
        o.stbc matches Some(x) ==> (0 <= x < 256 ==> radio_settings(o).stbc == x),
        o.mcs_index matches Some(x) ==> (0 <= x < 256 ==> radio_settings(o).mcs_index == x),
        o.vht_nss matches Some(x) ==> (0 <= x < 256 ==> radio_settings(o).vht_nss == x),
        o.short_gi matches Some(x) ==> radio_settings(o).short_gi == x,
        o.ldpc matches Some(x) ==> radio_settings(o).ldpc == (x != 0),
        o.vht_mode ==> radio_settings(o).vht_mode,
        !o.vht_mode ==> radio_settings(o).vht_mode == (o.bandwidth matches Some(b) && b >= 80),
        o.bandwidth is None ==> radio_settings(o).bandwidth == 20,
        o.stbc is None ==> radio_settings(o).stbc == 0,
        o.mcs_index is None ==> radio_settings(o).mcs_index == 1,
        o.vht_nss is None ==> radio_settings(o).vht_nss == 1,
        o.short_gi is None ==> !radio_settings(o).short_gi,
        o.ldpc is None ==> !radio_settings(o).ldpc,
{
}

/// Requests that differ in anything differ on the wire.
pub proof fn lemma_requests_distinct(a: CmdReq, b: CmdReq)
    requires
        a.bytes() == b.bytes(),
    ensures
        a == b,
{
    lemma_byte_range();
    lemma_be_len(a.req_id as nat, 4);
    lemma_be_len(b.req_id as nat, 4);
    lemma_be_round_trip(a.req_id as nat, 4);
    lemma_be_round_trip(b.req_id as nat, 4);
    let (x, y) = (a.bytes(), b.bytes());
    assert(x.take(4) =~= be_bytes(a.req_id as nat, 4));
    assert(y.take(4) =~= be_bytes(b.req_id as nat, 4));
    assert(x[4] == a.cmd_id && y[4] == b.cmd_id);
    assert(x.skip(5) =~= a.u.bytes());
    assert(y.skip(5) =~= b.u.bytes());
    let (u, v) = (a.u.bytes(), b.u.bytes());
    assert(u.len() == v.len());
    assert(u.len() == 2 ==> u[0] == v[0] && u[1] == v[1]);
    assert(u.len() == 7 ==> forall|i: int| 0 <= i < 7 ==> u[i] == v[i]);
}

/// Where the parts of a request are on the wire: its number in the first four bytes, highest first, then
/// the command, then the settings in their order, switches as one or zero.
pub proof fn lemma_request_layout(r: CmdReq)
    ensures
        r.bytes()[0] * 0x100_0000 + r.bytes()[1] * 0x1_0000 + r.bytes()[2] * 0x100 + r.bytes()[3]
            == r.req_id,
        r.bytes()[4] == r.cmd_id,
        r.u matches CmdReqArgs::Nothing ==> r.bytes().len() == 5,
        r.u matches CmdReqArgs::SetFec(a) ==> r.bytes().skip(5) == seq![a.k, a.n],
        r.u matches CmdReqArgs::SetRadio(a) ==> {
            &&& r.bytes().len() == 12
            &&& r.bytes()[5] == a.stbc
            &&& r.bytes()[6] == (if a.ldpc {
                1u8
            } else {
                0u8
            })
            &&& r.bytes()[7] == (if a.short_gi {
                1u8
            } else {
                0u8
            })
            &&& r.bytes()[8] == a.bandwidth
            &&& r.bytes()[9] == a.mcs_index
            &&& r.bytes()[10] == (if a.vht_mode {
                1u8
            } else {
                0u8
            })
            &&& r.bytes()[11] == a.vht_nss
        },
{
    lemma_be4(r.req_id as nat);
    assert(r.bytes().skip(5) =~= r.u.bytes());
}

/// Where the parts of a response are on the wire, and how one is read: the number of the request, the
/// code, and behind a code of zero the settings in their order.
pub proof fn lemma_response_layout(req: CmdReq, b: Seq<u8>)
    requires
        response_outcome(req, b) is Ok,
    ensures
        b[0] * 0x100_0000 + b[1] * 0x1_0000 + b[2] * 0x100 + b[3] == req.req_id,
        b.subrange(4, 8) == seq![0u8, 0, 0, 0],
        response_outcome(req, b)->Ok_0.req_id == req.req_id,
        response_outcome(req, b)->Ok_0.rc == 0,
        match response_outcome(req, b)->Ok_0.u {
            CmdRespArgs::Nothing => b.len() == 8 && req.cmd_id != 3 && req.cmd_id != 4,
            CmdRespArgs::GetFec(a) => req.cmd_id == 3 && b.skip(8) == seq![a.k, a.n],
            CmdRespArgs::GetRadio(a) => {
                &&& req.cmd_id == 4
                &&& b.len() == 15
                &&& b[8] == a.stbc
                &&& (b[9] != 0) == a.ldpc
                &&& (b[10] != 0) == a.short_gi
                &&& b[11] == a.bandwidth
                &&& b[12] == a.mcs_index
                &&& (b[13] != 0) == a.vht_mode
                &&& b[14] == a.vht_nss
            },
        },
{
    lemma_be_value4(b.subrange(0, 4));
    lemma_be_value4(b.subrange(4, 8));
    assert(b.subrange(4, 8) =~= seq![0u8, 0, 0, 0]);
    if req.cmd_id == 3 {
        assert(b.skip(8) =~= seq![b[8], b[9]]);
    }
}

/// A response of failure says its code, highest byte first, and nothing else of it counts.
pub proof fn lemma_response_failure(req: CmdReq, b: Seq<u8>)
    requires
        b.len() >= 8,
        b[0] * 0x100_0000 + b[1] * 0x1_0000 + b[2] * 0x100 + b[3] == req.req_id,
        b.subrange(4, 8) != seq![0u8, 0, 0, 0],
    ensures
        response_outcome(req, b) matches Err(CmdError::Failed(rc)) && rc == b[4] * 0x100_0000 + b[5]
            * 0x1_0000 + b[6] * 0x100 + b[7],
{
    lemma_be_value4(b.subrange(0, 4));
    lemma_be_value4(b.subrange(4, 8));
    if b[4] == 0 && b[5] == 0 && b[6] == 0 && b[7] == 0 {
        assert(b.subrange(4, 8) =~= seq![0u8, 0, 0, 0]);
    }
}

/// Whether the value of a guard interval option asks for the short one.
pub fn is_short_gi(value: &str) -> (r: bool)
    ensures
        r == (value@.len() > 0 && (value@[0] == 's' || value@[0] == 'S')),
{
    if value.unicode_len() == 0 {
        return false;
    }
    let first: char = value.get_char(0);
    first == 's' || first == 'S'
}

/// The bytes of results that a command is answered with.
pub open spec fn result_size(cmd_id: u8) -> int {
    if cmd_id == CMD_GET_FEC {
        2
    } else if cmd_id == CMD_GET_RADIO {
        7
    } else {
        0
    }
}

/// What a response to a request comes to.
pub open spec fn response_outcome(req: CmdReq, resp: Seq<u8>) -> Result<CmdResp, CmdError> {
    let req_id = be_value(resp.subrange(0, 4)) as u32;
    let rc = be_value(resp.subrange(4, 8)) as u32;
    if resp.len() < CMD_RESP_HEADER || req_id != req.req_id {
        Err(CmdError::InvalidResponse)
    } else if rc != 0 {
        Err(CmdError::Failed(rc))
    } else if resp.len() != CMD_RESP_HEADER + result_size(req.cmd_id) {
        Err(CmdError::InvalidResponse)
    } else {
        Ok(
            CmdResp {
                req_id,
                rc,
                u: if req.cmd_id == CMD_GET_FEC {
                    CmdRespArgs::GetFec(CmdGetFec { k: resp[8], n: resp[9] })
                } else if req.cmd_id == CMD_GET_RADIO {
                    CmdRespArgs::GetRadio(
                        CmdGetRadio {
                            stbc: resp[8],
                            ldpc: resp[9] != 0,
                            short_gi: resp[10] != 0,
                            bandwidth: resp[11],
                            mcs_index: resp[12],
                            vht_mode: resp[13] != 0,
                            vht_nss: resp[14],
                        },
                    )
                } else {
                    CmdRespArgs::Nothing
                },
            },
        )
    }
}

impl CmdRespArgs {
    pub open spec fn bytes(&self) -> Seq<u8> {
        match *self {
            CmdRespArgs::Nothing => Seq::empty(),
            CmdRespArgs::GetFec(a) => seq![a.k, a.n],
            CmdRespArgs::GetRadio(a) => seq![
                a.stbc,
                bool_byte(a.ldpc),
                bool_byte(a.short_gi),
                a.bandwidth,
                a.mcs_index,
                bool_byte(a.vht_mode),
                a.vht_nss,
            ],
        }
    }
}

impl CmdResp {
    /// The response on the wire.
    pub open spec fn bytes(&self) -> Seq<u8> {
        be_bytes(self.req_id as nat, 4) + be_bytes(self.rc as nat, 4) + self.u.bytes()
    }

    pub fn zeroed() -> (r: CmdResp)
        ensures
            r.req_id == 0,
            r.rc == 0,
            r.u == CmdRespArgs::Nothing,
    {
        CmdResp { req_id: 0, rc: 0, u: CmdRespArgs::Nothing }
    }

    pub fn to_bytes(&self) -> (out: Vec<u8>)
        ensures
            out@ == self.bytes(),
    {
        let mut out: Vec<u8> = to_be_bytes(self.req_id as u64, 4);
        let rc: Vec<u8> = to_be_bytes(self.rc as u64, 4);
        append_bytes(&mut out, &rc);
        match self.u {
            CmdRespArgs::Nothing => {},
            CmdRespArgs::GetFec(a) => {
                out.push(a.k);
                out.push(a.n);
            },
            CmdRespArgs::GetRadio(a) => {
                out.push(a.stbc);
                out.push(byte_of_bool(a.ldpc));
                out.push(byte_of_bool(a.short_gi));
                out.push(a.bandwidth);
                out.push(a.mcs_index);
                out.push(byte_of_bool(a.vht_mode));
                out.push(a.vht_nss);
            },
        }
        assert(out@ =~= self.bytes());
        out
    }
}

/// Takes the response to a request.
pub fn check_response(req: &CmdReq, resp: &[u8]) -> (r: Result<CmdResp, CmdError>)
    ensures
        r == response_outcome(*req, resp@),
{
    if resp.len() < CMD_RESP_HEADER {
        return Err(CmdError::InvalidResponse);
    }
    proof {
        lemma_byte_range();
    }
    let req_id: u32 = from_be_bytes(resp, 0, 4) as u32;
    let rc: u32 = from_be_bytes(resp, 4, 4) as u32;
    if req_id != req.req_id {
        return Err(CmdError::InvalidResponse);
    }
    if rc != 0 {
        return Err(CmdError::Failed(rc));
    }
    let size: usize = match req.cmd_id {
        CMD_GET_FEC => 2,
        CMD_GET_RADIO => 7,
        _ => 0,
    };
    if resp.len() != CMD_RESP_HEADER + size {
        return Err(CmdError::InvalidResponse);
    }
    let u = if req.cmd_id == CMD_GET_FEC {
        CmdRespArgs::GetFec(CmdGetFec { k: resp[8], n: resp[9] })
    } else if req.cmd_id == CMD_GET_RADIO {
        CmdRespArgs::GetRadio(
            CmdGetRadio {
                stbc: resp[8],
                ldpc: resp[9] != 0,
                short_gi: resp[10] != 0,
                bandwidth: resp[11],
                mcs_index: resp[12],
                vht_mode: resp[13] != 0,
                vht_nss: resp[14],
            },
        )
    } else {
        CmdRespArgs::Nothing
    };
    Ok(CmdResp { req_id, rc, u })
}

/// The results are those that the command asks for.
pub open spec fn answers(req: CmdReq, resp: CmdResp) -> bool {
    &&& resp.req_id == req.req_id
    &&& match resp.u {
        CmdRespArgs::Nothing => req.cmd_id != CMD_GET_FEC && req.cmd_id != CMD_GET_RADIO,
        CmdRespArgs::GetFec(_) => req.cmd_id == CMD_GET_FEC,
        CmdRespArgs::GetRadio(_) => req.cmd_id == CMD_GET_RADIO,
    }
}

/// A response of success that answers the request comes out as it went in.
pub proof fn lemma_response_round_trip(req: CmdReq, resp: CmdResp)
    requires
        answers(req, resp),
        resp.rc == 0,
    ensures
        response_outcome(req, resp.bytes()) == Ok::<CmdResp, CmdError>(resp),
{
    lemma_byte_range();
    lemma_be_len(resp.req_id as nat, 4);
    lemma_be_len(resp.rc as nat, 4);
    lemma_be_round_trip(resp.req_id as nat, 4);
    lemma_be_round_trip(resp.rc as nat, 4);
    let b = resp.bytes();
    assert(b.subrange(0, 4) =~= be_bytes(resp.req_id as nat, 4));
    assert(b.subrange(4, 8) =~= be_bytes(resp.rc as nat, 4));
    assert(b.skip(8) =~= resp.u.bytes());
    assert forall|i: int| 0 <= i < resp.u.bytes().len() implies b[8 + i] == resp.u.bytes()[i] by {}
}

/// A response to a request with another number is not taken, whatever it says.
pub proof fn lemma_response_to_other(req: CmdReq, resp: CmdResp)
    requires
        req.req_id != resp.req_id,
    ensures
        response_outcome(req, resp.bytes()) == Err::<CmdResp, CmdError>(CmdError::InvalidResponse),
{
    lemma_byte_range();
    lemma_be_len(resp.req_id as nat, 4);
    lemma_be_len(resp.rc as nat, 4);
    lemma_be_round_trip(resp.req_id as nat, 4);
    assert(resp.bytes().subrange(0, 4) =~= be_bytes(resp.req_id as nat, 4));
}

} // verus!

//! Request and response records of the wire protocol, and their tags.

use vstd::prelude::*;

verus! {

/// The number of entries in a level snapshot: one per representable price.
pub const VIEW_LEN: usize = 256;

/// The kind of a request frame.
#[derive(Clone, Copy, Debug, PartialEq, Eq)]
pub enum OBReqType {
    ADD,
    CANCEL,
    REDUCE,
    FLUSH,
    START,
    LEVELVIEW,
}

impl OBReqType {
    /// The byte that announces a frame of this kind: the ASCII letters
    /// `A`, `C`, `R`, `F`, `S` and `V`.
    pub open spec fn tag(self) -> u8 {
        match self {
            OBReqType::ADD => 0x41,
            OBReqType::CANCEL => 0x43,
            OBReqType::REDUCE => 0x52,
            OBReqType::FLUSH => 0x46,
            OBReqType::START => 0x53,
            OBReqType::LEVELVIEW => 0x56,
        }
    }

    /// The kind that a tag byte announces, if it announces any.
    pub open spec fn of_tag(v: u8) -> Option<OBReqType> {
        if v == 0x41 {
            Some(OBReqType::ADD)
        } else if v == 0x43 {
            Some(OBReqType::CANCEL)
        } else if v == 0x52 {
            Some(OBReqType::REDUCE)
        } else if v == 0x46 {
            Some(OBReqType::FLUSH)
        } else if v == 0x53 {
            Some(OBReqType::START)
        } else if v == 0x56 {
            Some(OBReqType::LEVELVIEW)
        } else {
            None
        }
    }

    pub fn to_u8(&self) -> (b: u8)
        ensures
            b == self.tag(),
            Self::of_tag(b) == Some(*self),
    {
        match self {
            OBReqType::ADD => 0x41,
            OBReqType::CANCEL => 0x43,
            OBReqType::REDUCE => 0x52,
            OBReqType::FLUSH => 0x46,
            OBReqType::START => 0x53,
            OBReqType::LEVELVIEW => 0x56,
        }
    }

    /// Reads a tag byte; a byte that announces no kind of request gives `None`.
    pub fn from_u8(v: u8) -> (t: Option<Self>)
        ensures
            t == Self::of_tag(v),
            t matches Some(k) ==> k.tag() == v,
    {
        if v == 0x41 {
            Some(OBReqType::ADD)
        } else if v == 0x43 {
            Some(OBReqType::CANCEL)
        } else if v == 0x52 {
            Some(OBReqType::REDUCE)
        } else if v == 0x46 {
            Some(OBReqType::FLUSH)
        } else if v == 0x53 {
            Some(OBReqType::START)
        } else if v == 0x56 {
            Some(OBReqType::LEVELVIEW)
        } else {
            None
        }
    }
}

/// Rest `qty` at `price` in book `ob_id`, after matching what crosses.
#[derive(Clone, Copy, Debug, PartialEq, Eq)]
pub struct AddRequest {
    pub qty: u64,
    pub price: i8,
    pub ob_id: u16,
}

/// Remove order `oid` of book `ob_id` with all it has left.
#[derive(Clone, Copy, Debug, PartialEq, Eq)]
pub struct CancelRequest {
    pub oid: usize,
    pub ob_id: u16,
}

/// Take `qty` off order `oid` of book `ob_id`.
#[derive(Clone, Copy, Debug, PartialEq, Eq)]
pub struct ReduceRequest {
    pub oid: usize,
    pub qty: u64,
    pub ob_id: u16,
}

/// Reset the exchange at settlement time.
#[derive(Clone, Copy, Debug, PartialEq, Eq)]
pub struct FlushRequest {
    pub ob_id: u16,
}

/// Announce that trading on book `ob_id` begins.
#[derive(Clone, Copy, Debug, PartialEq, Eq)]
pub struct StartRequest {
    pub ob_id: u16,
}

/// Ask for the resting quantity at every price of book `ob_id`.
#[derive(Clone, Copy, Debug, PartialEq, Eq)]
pub struct LevelViewRequest {
    pub ob_id: u16,
}

impl AddRequest {
    pub fn new(qty: u64, price: i8, ob_id: u16) -> (r: Self)
        ensures
            r == (AddRequest { qty, price, ob_id }),
    {
        AddRequest { qty, price, ob_id }
    }
}

impl CancelRequest {
    pub fn new(oid: usize, ob_id: u16) -> (r: Self)
        ensures
            r == (CancelRequest { oid, ob_id }),
    {
        CancelRequest { oid, ob_id }
    }
}

impl ReduceRequest {
    pub fn new(oid: usize, qty: u64, ob_id: u16) -> (r: Self)
        ensures
            r == (ReduceRequest { oid, qty, ob_id }),
    {
        ReduceRequest { oid, qty, ob_id }
    }
}

impl FlushRequest {
    pub fn new(ob_id: u16) -> (r: Self)
        ensures
            r == (FlushRequest { ob_id }),
    {
        FlushRequest { ob_id }
    }
}

impl StartRequest {
    pub fn new(ob_id: u16) -> (r: Self)
        ensures
            r == (StartRequest { ob_id }),
    {
        StartRequest { ob_id }
    }
}

impl LevelViewRequest {
    pub fn new(ob_id: u16) -> (r: Self)
        ensures
            r == (LevelViewRequest { ob_id }),
    {
        LevelViewRequest { ob_id }
    }
}

/// A request record, one variant per kind of frame.
#[derive(Clone, Copy, Debug, PartialEq, Eq)]
pub enum OBRequest {
    Add(AddRequest),
    Cancel(CancelRequest),
    Reduce(ReduceRequest),
    Flush(FlushRequest),
    Start(StartRequest),
    LevelView(LevelViewRequest),
}

impl OBRequest {
    /// The kind of frame that carries this record.
    pub open spec fn kind(self) -> OBReqType {
        match self {
            OBRequest::Add(_) => OBReqType::ADD,
            OBRequest::Cancel(_) => OBReqType::CANCEL,
            OBRequest::Reduce(_) => OBReqType::REDUCE,
            OBRequest::Flush(_) => OBReqType::FLUSH,
            OBRequest::Start(_) => OBReqType::START,
            OBRequest::LevelView(_) => OBReqType::LEVELVIEW,
        }
    }

    /// The book that the request addresses.
    pub open spec fn book(self) -> u16 {
        match self {
            OBRequest::Add(r) => r.ob_id,
            OBRequest::Cancel(r) => r.ob_id,
            OBRequest::Reduce(r) => r.ob_id,
            OBRequest::Flush(r) => r.ob_id,
            OBRequest::Start(r) => r.ob_id,
            OBRequest::LevelView(r) => r.ob_id,
        }
    }

    pub fn typ(&self) -> (t: OBReqType)
        ensures
            t == self.kind(),
    {
        match self {
            OBRequest::Add(_) => OBReqType::ADD,
            OBRequest::Cancel(_) => OBReqType::CANCEL,
            OBRequest::Reduce(_) => OBReqType::REDUCE,
            OBRequest::Flush(_) => OBReqType::FLUSH,
            OBRequest::Start(_) => OBReqType::START,
            OBRequest::LevelView(_) => OBReqType::LEVELVIEW,
        }
    }

    pub fn ob_id(&self) -> (id: u16)
        ensures
            id == self.book(),
    {
        match self {
            OBRequest::Add(r) => r.ob_id,
            OBRequest::Cancel(r) => r.ob_id,
            OBRequest::Reduce(r) => r.ob_id,
            OBRequest::Flush(r) => r.ob_id,
            OBRequest::Start(r) => r.ob_id,
            OBRequest::LevelView(r) => r.ob_id,
        }
    }
}

/// A request record together with the tag of its frame.
#[derive(Clone, Copy, Debug, PartialEq, Eq)]
pub struct OBRequestWrapper {
    pub req: OBRequest,
    pub typ: OBReqType,
}

impl OBRequestWrapper {
    /// The tag names the record's own kind.
    pub open spec fn wf(self) -> bool {
        self.typ == self.req.kind()
    }

    pub fn new(req: OBRequest) -> (w: Self)
        ensures
            w.req == req,
            w.wf(),
    {
        let typ = req.typ();
        OBRequestWrapper { req, typ }
    }
}

/// The kind of a response frame.
#[derive(Clone, Copy, Debug, PartialEq, Eq)]
pub enum OBRespType {
    ADD,
    EXECUTE,
    PRICE,
    LEVELVIEW,
    DELIM,
}

impl OBRespType {
    /// The byte that announces a frame of this kind: the ASCII characters
    /// `A`, `X`, `$`, `V` and `#`.
    pub open spec fn tag(self) -> u8 {
        match self {
            OBRespType::ADD => 0x41,
            OBRespType::EXECUTE => 0x58,
            OBRespType::PRICE => 0x24,
            OBRespType::LEVELVIEW => 0x56,
            OBRespType::DELIM => 0x23,
        }
    }

    /// The kind that a tag byte announces, if it announces any.
    pub open spec fn of_tag(v: u8) -> Option<OBRespType> {
        if v == 0x41 {
            Some(OBRespType::ADD)
        } else if v == 0x58 {
            Some(OBRespType::EXECUTE)
        } else if v == 0x24 {
            Some(OBRespType::PRICE)
        } else if v == 0x56 {
            Some(OBRespType::LEVELVIEW)
        } else if v == 0x23 {
            Some(OBRespType::DELIM)
        } else {
            None
        }
    }

    pub fn to_u8(&self) -> (b: u8)
        ensures
            b == self.tag(),
            Self::of_tag(b) == Some(*self),
    {
        match self {
            OBRespType::ADD => 0x41,
            OBRespType::EXECUTE => 0x58,
            OBRespType::PRICE => 0x24,
            OBRespType::LEVELVIEW => 0x56,
            OBRespType::DELIM => 0x23,
        }
    }

    /// Reads a tag byte; a byte that announces no kind of response gives `None`.
    pub fn from_u8(v: u8) -> (t: Option<Self>)
        ensures
            t == Self::of_tag(v),
            t matches Some(k) ==> k.tag() == v,
    {
        if v == 0x41 {
            Some(OBRespType::ADD)
        } else if v == 0x58 {
            Some(OBRespType::EXECUTE)
        } else if v == 0x24 {
            Some(OBRespType::PRICE)
        } else if v == 0x56 {
            Some(OBRespType::LEVELVIEW)
        } else if v == 0x23 {
            Some(OBRespType::DELIM)
        } else {
            None
        }
    }
}

/// A new order rests in the book under `oid`.
#[derive(Clone, Copy, Debug, PartialEq, Eq)]
pub struct AddResponse {
    pub oid: usize,
}

/// The resting order `executed_oid` was filled by `qty`.
#[derive(Clone, Copy, Debug, PartialEq, Eq)]
pub struct ExecuteResponse {
    pub executed_oid: usize,
    pub qty: u64,
}

/// The resting quantity at `price` changed by `delta`.
#[derive(Clone, Copy, Debug, PartialEq, Eq)]
pub struct PriceLevelResponse {
    pub price: i8,
    pub delta: i64,
}

/// The resting quantity at every price; price `p` is found at `p + 128`, so
/// the negative prices fill the lower half and the others the upper half.
#[derive(Clone, Copy, Debug, PartialEq, Eq)]
pub struct PriceViewResponse {
    pub prices: [u64; 256],
}

/// Marks the end of a sequence of responses.
#[derive(Clone, Copy, Debug, PartialEq, Eq)]
pub struct DelimResponse {}

impl AddResponse {
    pub fn new(oid: usize) -> (r: Self)
        ensures
            r == (AddResponse { oid }),
    {
        AddResponse { oid }
    }
}

impl ExecuteResponse {
    pub fn new(executed_oid: usize, qty: u64) -> (r: Self)
        ensures
            r == (ExecuteResponse { executed_oid, qty }),
    {
        ExecuteResponse { executed_oid, qty }
    }
}

impl PriceLevelResponse {
    pub fn new(price: i8, delta: i64) -> (r: Self)
        ensures
            r == (PriceLevelResponse { price, delta }),
    {
        PriceLevelResponse { price, delta }
    }

    pub fn from_pair(pair: (i8, i64)) -> (r: Self)
        ensures
            r == (PriceLevelResponse { price: pair.0, delta: pair.1 }),
    {
        PriceLevelResponse { price: pair.0, delta: pair.1 }
    }
}

impl DelimResponse {
    pub fn new() -> (r: Self)
        ensures
            r == (DelimResponse {  }),
    {
        DelimResponse {  }
    }
}

/// A response record, one variant per kind of frame.
#[derive(Clone, Copy, Debug, PartialEq, Eq)]
pub enum OBResponse {
    Add(AddResponse),
    Execute(ExecuteResponse),
    Price(PriceLevelResponse),
    LevelView(PriceViewResponse),
    End(DelimResponse),
}

impl OBResponse {
    /// The kind of frame that carries this record.
    pub open spec fn kind(self) -> OBRespType {
        match self {
            OBResponse::Add(_) => OBRespType::ADD,
            OBResponse::Execute(_) => OBRespType::EXECUTE,
            OBResponse::Price(_) => OBRespType::PRICE,
            OBResponse::LevelView(_) => OBRespType::LEVELVIEW,
            OBResponse::End(_) => OBRespType::DELIM,
        }
    }

    pub fn typ(&self) -> (t: OBRespType)
        ensures
            t == self.kind(),
    {
        match self {
            OBResponse::Add(_) => OBRespType::ADD,
            OBResponse::Execute(_) => OBRespType::EXECUTE,
            OBResponse::Price(_) => OBRespType::PRICE,
            OBResponse::LevelView(_) => OBRespType::LEVELVIEW,
            OBResponse::End(_) => OBRespType::DELIM,
        }
    }
}

/// A response record together with the tag of its frame.
#[derive(Clone, Copy, Debug, PartialEq, Eq)]
pub struct OBResponseWrapper {
    pub resp: OBResponse,
    pub typ: OBRespType,
}

impl OBResponseWrapper {
    /// The tag names the record's own kind.
    pub open spec fn wf(self) -> bool {
        self.typ == self.resp.kind()
    }

    /// The wrapper of a record: the record under its own tag.
    pub open spec fn of(resp: OBResponse) -> OBResponseWrapper {
        OBResponseWrapper { resp, typ: resp.kind() }
    }

    pub fn new(resp: OBResponse) -> (w: Self)
        ensures
            w == Self::of(resp),
            w.wf(),
    {
        let typ = resp.typ();
        OBResponseWrapper { resp, typ }
    }
}

} // verus!

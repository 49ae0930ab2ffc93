//! The data types of the surrounding workflow: the websocket request
//! frame and its event tags, the vehicle records the workflow iterates
//! over, and the car-side publishing decisions.
//!
//! Transport, prompting and serialization live outside the library; these
//! types carry the plain values they exchange, and the small decision
//! rules that deserve checking.

use vstd::prelude::*;

verus! {

/// The event tag of a request or response frame.
#[derive(Clone, Copy, Debug, PartialEq, Eq, Hash, Structural)]
pub enum EventType {
    TokenLoginRequest,
    LoginRequest,
    KeepAlive,
    OtaFetchVehicleTemplateTable,
    OtaFetchVehicleTemplateItemContents,
    OtaAddVehicleTemplateItem,
    OtaAddConfigurePublish,
    OtaEditConfigurePublish,
    OtaConfigurePublish,
}

impl EventType {
    /// The tag's name on the wire.
    pub fn wire_name(&self) -> (r: String)
        ensures
            *self == EventType::TokenLoginRequest ==> r@ == "TOKEN_LOGIN_REQUEST"@,
            *self == EventType::LoginRequest ==> r@ == "LOGIN_REQUEST"@,
            *self == EventType::KeepAlive ==> r@ == "KEEP_ALIVE"@,
            *self == EventType::OtaFetchVehicleTemplateTable ==> r@
                == "OTA_FETCH_VEHICLE_TEMPLATE_TABLE"@,
            *self == EventType::OtaFetchVehicleTemplateItemContents ==> r@
                == "OTA_FETCH_VEHICLE_TEMPLATE_ITEM_CONTENTS"@,
            *self == EventType::OtaAddVehicleTemplateItem ==> r@
                == "OTA_ADD_VEHICLE_TEMPLATE_ITEM"@,
            *self == EventType::OtaAddConfigurePublish ==> r@ == "OTA_ADD_CONFIGURE_PUBLISH"@,
            *self == EventType::OtaEditConfigurePublish ==> r@ == "OTA_EDIT_CONFIGURE_PUBLISH"@,
            *self == EventType::OtaConfigurePublish ==> r@ == "OTA_CONFIGURE_PUBLISH"@,
    {
        match self {
            EventType::TokenLoginRequest => String::from_str("TOKEN_LOGIN_REQUEST"),
            EventType::LoginRequest => String::from_str("LOGIN_REQUEST"),
            EventType::KeepAlive => String::from_str("KEEP_ALIVE"),
            EventType::OtaFetchVehicleTemplateTable => String::from_str(
                "OTA_FETCH_VEHICLE_TEMPLATE_TABLE",
            ),
            EventType::OtaFetchVehicleTemplateItemContents => String::from_str(
                "OTA_FETCH_VEHICLE_TEMPLATE_ITEM_CONTENTS",
            ),
            EventType::OtaAddVehicleTemplateItem => String::from_str(
                "OTA_ADD_VEHICLE_TEMPLATE_ITEM",
            ),
            EventType::OtaAddConfigurePublish => String::from_str("OTA_ADD_CONFIGURE_PUBLISH"),
            EventType::OtaEditConfigurePublish => String::from_str("OTA_EDIT_CONFIGURE_PUBLISH"),
            EventType::OtaConfigurePublish => String::from_str("OTA_CONFIGURE_PUBLISH"),
        }
    }
}

/// One request frame: the event it belongs to, the event to answer with,
/// a path parameter, and the body text.
#[derive(Debug)]
pub struct Request {
    pub event_type: EventType,
    pub request_type: EventType,
    pub path_parameter: String,
    pub request_body: String,
}

impl Request {
    /// The frame the connection sends periodically to stay open.
    pub fn keep_alive() -> (r: Request)
        ensures
            r.event_type == EventType::KeepAlive,
            r.request_type == EventType::KeepAlive,
            r.path_parameter@ == Seq::<char>::empty(),
            r.request_body@ == Seq::<char>::empty(),
    {
        Request {
            event_type: EventType::KeepAlive,
            request_type: EventType::KeepAlive,
            path_parameter: String::new(),
            request_body: String::new(),
        }
    }
}

/// One vehicle the workflow can edit a configuration for.
#[derive(Debug)]
pub struct Vehicle {
    pub id: i32,
    pub name: String,
}

/// How an approved configuration is pushed to the car.
#[derive(Clone, Copy, Debug, PartialEq, Eq, Structural)]
pub enum PushType {
    NoPush,
    Slient,
    Force,
}

/// What to do about pushing one vehicle's configuration.
#[derive(Clone, Copy, Debug, PartialEq, Eq, Structural)]
pub enum PushDecision {
    /// No push was requested.
    NoAttempt,
    /// A push was requested but an approval has failed, so it is skipped.
    Blocked,
    /// Push now.
    Push,
}

/// The car-side publishing settings and their running state: whether to
/// publish at all, how to push, and whether every approval so far
/// succeeded.
pub struct Carside {
    pub auto_publish: bool,
    pub push_type: PushType,
    pub can_approve: bool,
}

impl Carside {
    /// Fresh car-side state: a push type is only taken up when automatic
    /// publishing is on, and approvals start out trusted.
    pub fn new(auto_publish: bool, requested: Option<PushType>) -> (r: Carside)
        ensures
            r.auto_publish == auto_publish,
            r.can_approve,
            r.push_type == (if auto_publish {
                match requested {
                    Some(p) => p,
                    None => PushType::NoPush,
                }
            } else {
                PushType::NoPush
            }),
    {
        let push_type = if auto_publish {
            match requested {
                Some(p) => p,
                None => PushType::NoPush,
            }
        } else {
            PushType::NoPush
        };
        Carside { auto_publish, push_type, can_approve: true }
    }

    /// Folds one approval outcome into the running state: one failed
    /// approval blocks every later push.
    pub fn record_approval(&mut self, approved: bool)
        ensures
            final(self).can_approve == (old(self).can_approve && approved),
            final(self).auto_publish == old(self).auto_publish,
            final(self).push_type == old(self).push_type,
    {
        self.can_approve = self.can_approve && approved;
    }

    /// Whether this vehicle's configuration is published at all.
    pub fn should_publish(&self) -> (r: bool)
        ensures
            r == self.auto_publish,
    {
        self.auto_publish
    }

    /// What to do about pushing, given the current state.
    pub fn push_decision(&self) -> (r: PushDecision)
        ensures
            r == (if self.push_type == PushType::NoPush {
                PushDecision::NoAttempt
            } else if !self.can_approve {
                PushDecision::Blocked
            } else {
                PushDecision::Push
            }),
    {
        if self.push_type == PushType::NoPush {
            PushDecision::NoAttempt
        } else if !self.can_approve {
            PushDecision::Blocked
        } else {
            PushDecision::Push
        }
    }
}

} // verus!

use vstd::prelude::*;
use vstd::string::StringExecFns;
use crate::error::PayoutError;
use crate::text::{append_decimal, decimal};

verus! {

/// Where a user's profile is found: the user's number in the directory
/// follows.
pub const PROFILE_URL_PREFIX: &'static str = "https://flavortown.hackclub.com/admin/users/";

/// One user as the directory describes them.
#[derive(Debug)]
pub struct DirectoryUser {
    pub id: i64,
    pub slack_id: String,
    pub display_name: String,
    pub avatar: String,
    pub project_ids: Vec<i64>,
    pub cookies: Option<i64>,
}

/// What a lookup reads of a user.
pub struct UserView {
    pub id: int,
    pub display_name: Seq<char>,
}

impl View for DirectoryUser {
    type V = UserView;

    open spec fn view(&self) -> UserView {
        UserView { id: self.id as int, display_name: self.display_name@ }
    }
}

/// What came back from one lookup in the directory.
#[derive(Debug)]
pub enum DirectoryReply {
    /// The request could not be sent, or no response came.
    Unreachable,
    /// A response came, with an HTTP status. `users` holds the users that
    /// its body lists, in the order of the body; `None` where the body is
    /// no list of users.
    Answered { status: u16, users: Option<Vec<DirectoryUser>> },
}

/// A reply as a plain value.
pub enum ReplyView {
    Unreachable,
    Answered { status: nat, users: Option<Seq<UserView>> },
}

impl View for DirectoryReply {
    type V = ReplyView;

    open spec fn view(&self) -> ReplyView {
        match self {
            DirectoryReply::Unreachable => ReplyView::Unreachable,
            DirectoryReply::Answered { status, users } => ReplyView::Answered {
                status: *status as nat,
                users: match users {
                    Some(list) => Some(list@.map_values(|u: DirectoryUser| u@)),
                    None => None,
                },
            },
        }
    }
}

/// Who a helper is, according to the directory.
#[derive(Debug)]
pub struct ResolvedIdentity {
    pub helper_id: String,
    pub display_name: String,
    pub profile_url: String,
    pub directory_numeric_id: i64,
}

/// An identity as a plain value.
pub struct IdentityView {
    pub helper_id: Seq<char>,
    pub display_name: Seq<char>,
    pub profile_url: Seq<char>,
    pub directory_numeric_id: int,
}

impl View for ResolvedIdentity {
    type V = IdentityView;

    open spec fn view(&self) -> IdentityView {
        IdentityView {
            helper_id: self.helper_id@,
            display_name: self.display_name@,
            profile_url: self.profile_url@,
            directory_numeric_id: self.directory_numeric_id as int,
        }
    }
}

/// An HTTP status reports success where it is one of 200 to 299.
pub open spec fn is_success(status: nat) -> bool {
    200 <= status < 300
}

/// The address of the profile of the user with number `id`.
pub open spec fn profile_url_of(id: int) -> Seq<char> {
    PROFILE_URL_PREFIX@ + decimal(id)
}

/// The identity of a helper as a user describes it.
pub open spec fn identity_of(helper_id: Seq<char>, user: UserView) -> IdentityView {
    IdentityView {
        helper_id,
        display_name: user.display_name,
        profile_url: profile_url_of(user.id),
        directory_numeric_id: user.id,
    }
}

/// What a reply says of a helper: the identity that the first listed user
/// gives, `NoMatchFound` where the list is empty, `DirectoryUnavailable`
/// where no proper answer came.
pub open spec fn resolution(helper_id: Seq<char>, reply: ReplyView) -> Result<
    IdentityView,
    PayoutError,
> {
    match reply {
        ReplyView::Answered { status, users: Some(users) } => if !is_success(status) {
            Err(PayoutError::DirectoryUnavailable)
        } else if users.len() == 0 {
            Err(PayoutError::NoMatchFound)
        } else {
            Ok(identity_of(helper_id, users[0]))
        },
        _ => Err(PayoutError::DirectoryUnavailable),
    }
}

/// An identity or an error as a plain value.
pub open spec fn resolved_view(outcome: Result<ResolvedIdentity, PayoutError>) -> Result<
    IdentityView,
    PayoutError,
> {
    match outcome {
        Ok(identity) => Ok(identity@),
        Err(e) => Err(e),
    }
}

/// Whether an HTTP status reports success.
pub fn status_is_success(status: u16) -> (ok: bool)
    ensures
        ok == is_success(status as nat),
{
    200 <= status && status < 300
}

/// The address of the profile of the user with number `id`.
pub fn profile_url(id: i64) -> (url: String)
    ensures
        url@ == profile_url_of(id as int),
{
    let mut url = String::from_str(PROFILE_URL_PREFIX);
    append_decimal(&mut url, id);
    url
}

/// Reads a helper's identity from the directory's reply. Where the
/// directory lists several users the first one counts.
pub fn resolve(helper_id: &str, reply: &DirectoryReply) -> (outcome: Result<
    ResolvedIdentity,
    PayoutError,
>)
    ensures
        resolved_view(outcome) == resolution(helper_id@, reply@),
{
    match reply {
        DirectoryReply::Answered { status, users: Some(users) } => {
            if !status_is_success(*status) {
                Err(PayoutError::DirectoryUnavailable)
            } else if users.len() == 0 {
                Err(PayoutError::NoMatchFound)
            } else {
                let user = &users[0];
                Ok(
                    ResolvedIdentity {
                        helper_id: String::from_str(helper_id),
                        display_name: user.display_name.clone(),
                        profile_url: profile_url(user.id),
                        directory_numeric_id: user.id,
                    },
                )
            }
        },
        _ => Err(PayoutError::DirectoryUnavailable),
    }
}

} // verus!

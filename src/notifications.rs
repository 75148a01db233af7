//! Desktop notifications: what to ask the system's notifier for.
use vstd::prelude::*;

use crate::text::text_of;

verus! {

/// The kind of a notification, which sets its urgency and icon.
#[derive(Clone, Copy, Debug, PartialEq, Eq, Structural)]
pub enum NotificationType {
    Success,
    Error,
    Info,
}

pub open spec fn urgency_of(kind: NotificationType) -> Seq<char> {
    match kind {
        NotificationType::Success => "normal"@,
        NotificationType::Error => "critical"@,
        NotificationType::Info => "low"@,
    }
}

pub open spec fn icon_of(kind: NotificationType) -> Seq<char> {
    match kind {
        NotificationType::Error => "dialog-error"@,
        _ => "dialog-information"@,
    }
}

pub open spec fn app_name() -> Seq<char> {
    "NDownloader"@
}

/// A notification ready to be handed to the notifier.
#[derive(Clone, Debug)]
pub struct NotificationRequest {
    pub urgency: String,
    pub icon: String,
    pub app_name: String,
    pub title: String,
    pub message: String,
}

/// The notifier's arguments for a request, in order.
pub open spec fn request_args(r: NotificationRequest) -> Seq<Seq<char>> {
    seq![
        "--urgency"@,
        r.urgency@,
        "--icon"@,
        r.icon@,
        "--app-name"@,
        r.app_name@,
        r.title@,
        r.message@,
    ]
}

/// Builds desktop notifications.
pub struct Notification;

impl Notification {
    /// The request for a notification of `kind`.
    pub fn request(kind: NotificationType, title: &str, message: &str) -> (r: NotificationRequest)
        ensures
            r.urgency@ == urgency_of(kind),
            r.icon@ == icon_of(kind),
            r.app_name@ == app_name(),
            r.title@ == title@,
            r.message@ == message@,
    {
        proof {
            reveal_strlit("normal");
            reveal_strlit("critical");
            reveal_strlit("low");
            reveal_strlit("dialog-error");
            reveal_strlit("dialog-information");
            reveal_strlit("NDownloader");
        }
        let urgency = match kind {
            NotificationType::Success => "normal".to_string(),
            NotificationType::Error => "critical".to_string(),
            NotificationType::Info => "low".to_string(),
        };
        let icon = match kind {
            NotificationType::Success => "dialog-information".to_string(),
            NotificationType::Error => "dialog-error".to_string(),
            NotificationType::Info => "dialog-information".to_string(),
        };
        NotificationRequest {
            urgency,
            icon,
            app_name: "NDownloader".to_string(),
            title: text_of(title),
            message: text_of(message),
        }
    }

    /// A notification of success.
    pub fn success(title: &str, message: &str) -> (r: NotificationRequest)
        ensures
            r.urgency@ == urgency_of(NotificationType::Success),
            r.icon@ == icon_of(NotificationType::Success),
            r.app_name@ == app_name(),
            r.title@ == title@,
            r.message@ == message@,
    {
        Self::request(NotificationType::Success, title, message)
    }

    /// A notification of an error.
    pub fn error(title: &str, message: &str) -> (r: NotificationRequest)
        ensures
            r.urgency@ == urgency_of(NotificationType::Error),
            r.icon@ == icon_of(NotificationType::Error),
            r.app_name@ == app_name(),
            r.title@ == title@,
            r.message@ == message@,
    {
        Self::request(NotificationType::Error, title, message)
    }

    /// A notification for information.
    pub fn info(title: &str, message: &str) -> (r: NotificationRequest)
        ensures
            r.urgency@ == urgency_of(NotificationType::Info),
            r.icon@ == icon_of(NotificationType::Info),
            r.app_name@ == app_name(),
            r.title@ == title@,
            r.message@ == message@,
    {
        Self::request(NotificationType::Info, title, message)
    }
}

impl NotificationRequest {
    /// The arguments to give the notifier.
    pub fn args(&self) -> (r: Vec<String>)
        ensures
            r@.map_values(|s: String| s@) == request_args(*self),
    {
        proof {
            reveal_strlit("--urgency");
            reveal_strlit("--icon");
            reveal_strlit("--app-name");
        }
        let r = vec![
            "--urgency".to_string(),
            self.urgency.clone(),
            "--icon".to_string(),
            self.icon.clone(),
            "--app-name".to_string(),
            self.app_name.clone(),
            self.title.clone(),
            self.message.clone(),
        ];
        assert(r@.map_values(|s: String| s@) =~= request_args(*self));
        r
    }
}

} // verus!

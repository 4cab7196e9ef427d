//! Kinds and ids of the context that can be attached to a message.

use vstd::prelude::*;

verus! {

/// The icons by which the kinds of context are shown.
#[derive(Clone, Copy, Debug, PartialEq, Eq, Structural)]
pub enum IconName {
    File,
    Folder,
    Code,
    Context,
    Globe,
    MessageBubbles,
    Image,
}

/// The icon of rules.
pub open spec fn rules_icon() -> IconName {
    IconName::Context
}

#[derive(Clone, Copy, Debug, PartialEq, Eq, Structural)]
pub enum ContextKind {
    File,
    Directory,
    Symbol,
    Selection,
    FetchedUrl,
    Thread,
    TextThread,
    Rules,
    Image,
}

impl ContextKind {
    /// The icon of each kind. Threads and text threads share one, and so do
    /// selections and rules.
    pub open spec fn spec_icon(self) -> IconName {
        match self {
            ContextKind::File => IconName::File,
            ContextKind::Directory => IconName::Folder,
            ContextKind::Symbol => IconName::Code,
            ContextKind::Selection => IconName::Context,
            ContextKind::FetchedUrl => IconName::Globe,
            ContextKind::Thread => IconName::MessageBubbles,
            ContextKind::TextThread => IconName::MessageBubbles,
            ContextKind::Rules => rules_icon(),
            ContextKind::Image => IconName::Image,
        }
    }

    pub fn icon(&self) -> (icon: IconName)
        ensures
            icon == self.spec_icon(),
    {
        match self {
            ContextKind::File => IconName::File,
            ContextKind::Directory => IconName::Folder,
            ContextKind::Symbol => IconName::Code,
            ContextKind::Selection => IconName::Context,
            ContextKind::FetchedUrl => IconName::Globe,
            ContextKind::Thread => IconName::MessageBubbles,
            ContextKind::TextThread => IconName::MessageBubbles,
            ContextKind::Rules => IconName::Context,
            ContextKind::Image => IconName::Image,
        }
    }
}

/// Id of a context, given when the context is added. Ids are handed out in
/// increasing order, starting from zero.
#[derive(Clone, Copy, Debug, PartialEq, Eq, Structural)]
pub struct ContextId(pub u64);

impl ContextId {
    /// The first id.
    pub fn zero() -> (id: Self)
        ensures
            id.0 == 0,
    {
        ContextId(0)
    }

    /// The id that stands in keys that are made only to look a context up.
    pub fn for_lookup() -> (id: Self)
        ensures
            id.0 == u64::MAX,
    {
        ContextId(u64::MAX)
    }

    /// Hands out the current id and moves on to the next.
    pub fn post_inc(&mut self) -> (id: Self)
        requires
            old(self).0 < u64::MAX,
        ensures
            id == *old(self),
            final(self).0 == old(self).0 + 1,
    {
        let id = *self;
        self.0 = self.0 + 1;
        id
    }
}

/// How far the loading of an image has come.
#[derive(Clone, Copy, Debug, PartialEq, Eq, Structural)]
pub enum ImageStatus {
    Loading,
    Error,
    Ready,
}

impl ImageStatus {
    /// The status of an image whose loading was polled: `None` while it is
    /// not done, `Some(None)` when it failed, `Some(Some(_))` when the image
    /// is there.
    pub fn of_poll<T>(polled: &Option<Option<T>>) -> (status: ImageStatus)
        ensures
            status == match *polled {
                None => ImageStatus::Loading,
                Some(None) => ImageStatus::Error,
                Some(Some(_)) => ImageStatus::Ready,
            },
    {
        match polled {
            None => ImageStatus::Loading,
            Some(None) => ImageStatus::Error,
            Some(Some(_)) => ImageStatus::Ready,
        }
    }
}

} // verus!

//! What is shown of the work that goes on.

use vstd::prelude::*;

use crate::text::{copy_texts, views};

verus! {

/// The entry that is worked on, and the stages that it goes through.
#[derive(Debug)]
pub struct CurrentActivity {
    pub path: String,
    pub routes: Vec<String>,
    pub kind: String,
}

pub struct ActivityView {
    pub path: Seq<char>,
    pub routes: Seq<Seq<char>>,
    pub kind: Seq<char>,
}

impl CurrentActivity {
    pub open spec fn view(self) -> ActivityView {
        ActivityView { path: self.path@, routes: views(self.routes@), kind: self.kind@ }
    }

    pub fn copy(&self) -> (r: CurrentActivity)
        ensures
            r.view() == self.view(),
    {
        CurrentActivity {
            path: self.path.clone(),
            routes: copy_texts(&self.routes),
            kind: self.kind.clone(),
        }
    }
}

pub open spec fn activity_view(a: Option<CurrentActivity>) -> Option<ActivityView> {
    match a {
        Some(c) => Some(c.view()),
        None => None,
    }
}

/// What is worked on, if anything is.
#[derive(Debug)]
pub struct Activity {
    pub current: Option<CurrentActivity>,
}

impl Activity {
    pub fn new() -> (r: Activity)
        ensures
            activity_view(r.current) is None,
    {
        Activity { current: None }
    }

    pub fn set_activity(&mut self, act: Option<CurrentActivity>)
        ensures
            activity_view(final(self).current) == activity_view(act),
    {
        self.current = act;
    }

    pub fn activity_snapshot(&self) -> (r: Option<CurrentActivity>)
        ensures
            activity_view(r) == activity_view(self.current),
    {
        match &self.current {
            Some(c) => Some(c.copy()),
            None => None,
        }
    }
}

} // verus!

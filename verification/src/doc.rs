//! The document's save state: unsaved changes, the revision counter that
//! caches key on, and the "unsaved changes" prompt in front of actions that
//! would discard the buffer.
use vstd::prelude::*;
use crate::find::FindReplace;

verus! {

/// An action that discards the current buffer, so it has to wait for the
/// "unsaved changes" prompt when the document is dirty.
pub enum PendingAction {
    New,
    Open,
    /// Open the file at this path.
    OpenPath(String),
    Quit,
}

/// The answer to the "unsaved changes" prompt.
#[derive(Clone, Copy, Debug, PartialEq, Eq, Structural)]
pub enum Choice {
    Save,
    Discard,
    Cancel,
}

/// What the caller does after the prompt was answered.
pub enum ConfirmStep {
    /// Nothing (no prompt was up, or it was cancelled).
    Nothing,
    /// Run the action now.
    Perform(PendingAction),
    /// Save to the current path, then run the action if the save worked.
    SaveThenPerform(PendingAction),
    /// Ask for a path to save to; the action runs once that save finished.
    SaveAs,
}

/// Save state of the open document.
pub struct DocState {
    /// The buffer differs from what is on disk.
    pub dirty: bool,
    /// Bumped on every edit, save, open or reset; caches of the buffer key on it.
    pub text_rev: u64,
    /// The action waiting for the "unsaved changes" prompt.
    pub confirm: Option<PendingAction>,
    /// The action waiting for a Save As to finish.
    pub after_save: Option<PendingAction>,
    /// The window may close without asking.
    pub allow_close: bool,
}

/// The revision after `r`, wrapping around.
pub open spec fn next_rev(r: u64) -> u64 {
    vstd::wrapping::u64_specs::wrapping_add(r, 1)
}

impl DocState {
    /// A clean document at revision 0.
    pub fn new() -> (r: DocState)
        ensures
            !r.dirty,
            r.text_rev == 0,
            r.confirm is None,
            r.after_save is None,
            !r.allow_close,
    {
        DocState { dirty: false, text_rev: 0, confirm: None, after_save: None, allow_close: false }
    }

    /// Record that the buffer changed and now differs from what's on disk.
    pub fn mark_edited(&mut self)
        ensures
            final(self).dirty,
            final(self).text_rev == next_rev(old(self).text_rev),
            final(self).confirm == old(self).confirm,
            final(self).after_save == old(self).after_save,
            final(self).allow_close == old(self).allow_close,
    {
        self.dirty = true;
        self.text_rev = self.text_rev.wrapping_add(1);
    }

    /// Record that the buffer now matches what's on disk (saved, opened or reset).
    pub fn mark_saved(&mut self)
        ensures
            !final(self).dirty,
            final(self).text_rev == next_rev(old(self).text_rev),
            final(self).confirm == old(self).confirm,
            final(self).after_save == old(self).after_save,
            final(self).allow_close == old(self).allow_close,
    {
        self.dirty = false;
        self.text_rev = self.text_rev.wrapping_add(1);
    }

    /// A write to the current path succeeded.
    pub fn save_succeeded(&mut self)
        ensures
            !final(self).dirty,
            final(self).text_rev == old(self).text_rev,
            final(self).confirm == old(self).confirm,
            final(self).after_save == old(self).after_save,
            final(self).allow_close == old(self).allow_close,
    {
        self.dirty = false;
    }

    /// Ask to run `action`: it runs now (returned) when the buffer is clean,
    /// and waits for the prompt otherwise.
    pub fn request(&mut self, action: PendingAction) -> (r: Option<PendingAction>)
        ensures
            old(self).dirty ==> r is None && final(self).confirm == Some(action),
            !old(self).dirty ==> r == Some(action) && final(self).confirm == old(self).confirm,
            final(self).dirty == old(self).dirty,
            final(self).text_rev == old(self).text_rev,
            final(self).after_save == old(self).after_save,
            final(self).allow_close == old(self).allow_close,
    {
        if self.dirty {
            self.confirm = Some(action);
            None
        } else {
            Some(action)
        }
    }

    /// The window is about to quit on purpose: let it close without asking.
    pub fn allow_quit(&mut self)
        ensures
            final(self).allow_close,
            final(self).dirty == old(self).dirty,
            final(self).text_rev == old(self).text_rev,
            final(self).confirm == old(self).confirm,
            final(self).after_save == old(self).after_save,
    {
        self.allow_close = true;
    }

    /// The window was asked to close. Returns whether the close must be
    /// cancelled, in which case the prompt comes up for quitting.
    pub fn close_requested(&mut self) -> (cancel: bool)
        ensures
            cancel == (old(self).dirty && !old(self).allow_close),
            cancel ==> final(self).confirm == Some(PendingAction::Quit),
            !cancel ==> final(self).confirm == old(self).confirm,
            final(self).dirty == old(self).dirty,
            final(self).text_rev == old(self).text_rev,
            final(self).after_save == old(self).after_save,
            final(self).allow_close == old(self).allow_close,
    {
        if self.dirty && !self.allow_close {
            self.confirm = Some(PendingAction::Quit);
            true
        } else {
            false
        }
    }

    /// The prompt was answered with `choice`; `has_path` tells whether the
    /// document has a file to save to.
    pub fn answer(&mut self, choice: Choice, has_path: bool) -> (r: ConfirmStep)
        ensures
            match old(self).confirm {
                None => r is Nothing && *final(self) == *old(self),
                Some(action) => {
                    &&& final(self).confirm is None
                    &&& final(self).text_rev == old(self).text_rev
                    &&& final(self).allow_close == old(self).allow_close
                    &&& match choice {
                        Choice::Cancel => r is Nothing && final(self).dirty == old(self).dirty
                            && final(self).after_save == old(self).after_save,
                        Choice::Discard => r == ConfirmStep::Perform(action) && !final(self).dirty
                            && final(self).after_save == old(self).after_save,
                        Choice::Save => if has_path {
                            r == ConfirmStep::SaveThenPerform(action) && final(self).dirty == old(self).dirty
                                && final(self).after_save == old(self).after_save
                        } else {
                            r is SaveAs && final(self).dirty == old(self).dirty && final(self).after_save
                                == Some(action)
                        },
                    }
                },
            },
    {
        let action = match self.confirm.take() {
            Some(a) => a,
            None => {
                return ConfirmStep::Nothing;
            },
        };
        match choice {
            Choice::Cancel => ConfirmStep::Nothing,
            Choice::Discard => {
                self.dirty = false;
                ConfirmStep::Perform(action)
            },
            Choice::Save => {
                if has_path {
                    ConfirmStep::SaveThenPerform(action)
                } else {
                    self.after_save = Some(action);
                    ConfirmStep::SaveAs
                }
            },
        }
    }

    /// A Save As finished writing: the document is clean, and the action
    /// that waited for the save (if any) runs now.
    pub fn save_as_succeeded(&mut self) -> (r: Option<PendingAction>)
        ensures
            r == old(self).after_save,
            final(self).after_save is None,
            !final(self).dirty,
            final(self).text_rev == next_rev(old(self).text_rev),
            final(self).confirm == old(self).confirm,
            final(self).allow_close == old(self).allow_close,
    {
        self.mark_saved();
        self.after_save.take()
    }

    /// A Save As was cancelled or failed: whatever waited for it is dropped.
    pub fn save_as_failed(&mut self)
        ensures
            final(self).after_save is None,
            final(self).dirty == old(self).dirty,
            final(self).text_rev == old(self).text_rev,
            final(self).confirm == old(self).confirm,
            final(self).allow_close == old(self).allow_close,
    {
        self.after_save = None;
    }
}

/// Every edit or save moves the revision, so matches that find & replace
/// cached for the revision before it are recomputed.
pub proof fn law_edit_invalidates_find_cache(f: &FindReplace, r: u64)
    requires
        f.cache_hit(r),
    ensures
        !f.cache_hit(next_rev(r)),
{
}

} // verus!

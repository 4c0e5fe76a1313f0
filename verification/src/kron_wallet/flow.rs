//! The screens of the desktop wallet: back up the phrase, prove the backup, then use
//! the wallet. Drawing is the caller's part.

use vstd::prelude::*;

use crate::dag::tx::{DagTransaction, TxHash};
use crate::kron::wallet::KronKeypair;
use crate::kron_wallet::explorer::ComposeHint;
use crate::kron_wallet::send::{confirm_quiz, form_fields, prepare_send, quiz_passed, send_outcome,
    SendFault};
use crate::text::{chars_of, owned, text_of, text_views, trim, trimmed};

verus! {

/// What is said of a quiz that failed.
pub const QUIZ_MISMATCH: &'static str =
    "Those words do not match. Check your backup and try again.";

/// What is said once the backup was confirmed.
pub const WALLET_READY: &'static str = "Wallet ready. Recovery phrase saved offline.";

#[derive(Clone, Copy, Debug, PartialEq, Eq, Structural)]
pub enum Screen {
    SavePhrase,
    ConfirmPhrase,
    Wallet,
}

/// Where the user of the wallet stands.
#[derive(Debug)]
pub struct WalletFlow {
    screen: Screen,
    backed_up: bool,
    wrote_it_down: bool,
    quiz_failed: bool,
    reveal_ack: bool,
    reveal_open: bool,
    nonce: u64,
}

/// The flow as mathematical data.
pub struct FlowView {
    pub screen: Screen,
    pub backed_up: bool,
    pub wrote_it_down: bool,
    pub quiz_failed: bool,
    pub reveal_ack: bool,
    pub reveal_open: bool,
    /// The nonce of the next transfer.
    pub nonce: u64,
}

impl View for WalletFlow {
    type V = FlowView;

    closed spec fn view(&self) -> FlowView {
        FlowView {
            screen: self.screen,
            backed_up: self.backed_up,
            wrote_it_down: self.wrote_it_down,
            quiz_failed: self.quiz_failed,
            reveal_ack: self.reveal_ack,
            reveal_open: self.reveal_open,
            nonce: self.nonce,
        }
    }
}

impl FlowView {
    /// The wallet is used only once its phrase was backed up, and the backup is not
    /// confirmed before the user said that it was written down.
    pub open spec fn guarded(self) -> bool {
        &&& self.screen == Screen::Wallet ==> self.backed_up
        &&& self.screen == Screen::ConfirmPhrase ==> self.wrote_it_down
    }

    /// The first screen.
    pub open spec fn opening(needs_onboarding: bool, nonce: u64) -> FlowView {
        FlowView {
            screen: if needs_onboarding {
                Screen::SavePhrase
            } else {
                Screen::Wallet
            },
            backed_up: !needs_onboarding,
            wrote_it_down: false,
            quiz_failed: false,
            reveal_ack: false,
            reveal_open: false,
            nonce,
        }
    }

    /// On to the quiz, where the phrase was written down.
    pub open spec fn continued(self) -> FlowView {
        if self.screen == Screen::SavePhrase && self.wrote_it_down {
            FlowView { screen: Screen::ConfirmPhrase, quiz_failed: false, ..self }
        } else {
            self
        }
    }

    /// Back to the phrase.
    pub open spec fn gone_back(self) -> FlowView {
        if self.screen == Screen::ConfirmPhrase {
            FlowView { screen: Screen::SavePhrase, quiz_failed: false, ..self }
        } else {
            self
        }
    }

    /// The quiz was answered.
    pub open spec fn answered(self, passed: bool) -> FlowView {
        if self.screen != Screen::ConfirmPhrase {
            self
        } else if passed {
            FlowView {
                screen: Screen::Wallet,
                backed_up: true,
                reveal_ack: false,
                reveal_open: false,
                ..self
            }
        } else {
            FlowView { quiz_failed: true, ..self }
        }
    }

    /// Whether the phrase is shown on the home tab.
    pub open spec fn phrase_shown(self) -> bool {
        self.screen == Screen::Wallet && self.reveal_ack && self.reveal_open
    }
}

impl WalletFlow {
    /// Begins with the backup, or with the wallet where the phrase was backed up.
    pub fn new(needs_onboarding: bool, nonce: u64) -> (r: Self)
        ensures
            r@ == FlowView::opening(needs_onboarding, nonce),
            r@.guarded(),
    {
        WalletFlow {
            screen: if needs_onboarding {
                Screen::SavePhrase
            } else {
                Screen::Wallet
            },
            backed_up: !needs_onboarding,
            wrote_it_down: false,
            quiz_failed: false,
            reveal_ack: false,
            reveal_open: false,
            nonce,
        }
    }

    pub fn screen(&self) -> (r: Screen)
        ensures
            r == self@.screen,
    {
        self.screen
    }

    pub fn backed_up(&self) -> (r: bool)
        ensures
            r == self@.backed_up,
    {
        self.backed_up
    }

    pub fn wrote_it_down(&self) -> (r: bool)
        ensures
            r == self@.wrote_it_down,
    {
        self.wrote_it_down
    }

    pub fn quiz_failed(&self) -> (r: bool)
        ensures
            r == self@.quiz_failed,
    {
        self.quiz_failed
    }

    pub fn reveal_ack(&self) -> (r: bool)
        ensures
            r == self@.reveal_ack,
    {
        self.reveal_ack
    }

    pub fn reveal_open(&self) -> (r: bool)
        ensures
            r == self@.reveal_open,
    {
        self.reveal_open
    }

    pub fn nonce(&self) -> (r: u64)
        ensures
            r == self@.nonce,
    {
        self.nonce
    }

    /// The box below the phrase. It is there on the first screen only.
    pub fn set_wrote_it_down(&mut self, said: bool)
        requires
            old(self)@.guarded(),
        ensures
            final(self)@.guarded(),
            final(self)@ == (if old(self)@.screen == Screen::SavePhrase {
                FlowView { wrote_it_down: said, ..old(self)@ }
            } else {
                old(self)@
            }),
    {
        if self.screen == Screen::SavePhrase {
            self.wrote_it_down = said;
        }
    }

    /// The button below the box.
    pub fn on_continue(&mut self)
        requires
            old(self)@.guarded(),
        ensures
            final(self)@.guarded(),
            final(self)@ == old(self)@.continued(),
    {
        if self.screen == Screen::SavePhrase && self.wrote_it_down {
            self.screen = Screen::ConfirmPhrase;
            self.quiz_failed = false;
        }
    }

    pub fn on_back(&mut self)
        requires
            old(self)@.guarded(),
        ensures
            final(self)@.guarded(),
            final(self)@ == old(self)@.gone_back(),
    {
        if self.screen == Screen::ConfirmPhrase {
            self.screen = Screen::SavePhrase;
            self.quiz_failed = false;
        }
    }

    /// The quiz was answered. `true` where the backup is confirmed now: the wallet is
    /// stored as backed up.
    pub fn on_answers(&mut self, words: &Vec<String>, places: &Vec<usize>, typed: &Vec<String>) -> (r:
        bool)
        requires
            old(self)@.guarded(),
            forall|i: int| 0 <= i < places@.len() ==> #[trigger] places@[i] < words@.len(),
        ensures
            final(self)@.guarded(),
            final(self)@ == old(self)@.answered(
                quiz_passed(text_views(words@), places@, text_views(typed@)),
            ),
            r == (old(self)@.screen == Screen::ConfirmPhrase && final(self)@.screen
                == Screen::Wallet),
    {
        if self.screen != Screen::ConfirmPhrase {
            return false;
        }
        if !confirm_quiz(words, places, typed) {
            self.quiz_failed = true;
            return false;
        }
        self.screen = Screen::Wallet;
        self.backed_up = true;
        self.reveal_ack = false;
        self.reveal_open = false;
        true
    }

    /// The box above the reveal button.
    pub fn set_reveal_ack(&mut self, said: bool)
        requires
            old(self)@.guarded(),
        ensures
            final(self)@.guarded(),
            final(self)@ == (FlowView { reveal_ack: said, ..old(self)@ }),
    {
        self.reveal_ack = said;
    }

    /// The reveal button. It does nothing before the box was ticked.
    pub fn on_reveal(&mut self)
        requires
            old(self)@.guarded(),
        ensures
            final(self)@.guarded(),
            final(self)@ == (if old(self)@.reveal_ack {
                FlowView { reveal_open: !old(self)@.reveal_open, ..old(self)@ }
            } else {
                old(self)@
            }),
    {
        if self.reveal_ack {
            self.reveal_open = !self.reveal_open;
        }
    }

    /// Whether the phrase is shown on the home tab.
    pub fn phrase_shown(&self) -> (r: bool)
        ensures
            r == self@.phrase_shown(),
    {
        self.screen == Screen::Wallet && self.reveal_ack && self.reveal_open
    }

    /// The explorer named the nonce of the next transfer.
    pub fn on_hint(&mut self, nonce: u64)
        requires
            old(self)@.guarded(),
        ensures
            final(self)@.guarded(),
            final(self)@ == (FlowView { nonce, ..old(self)@ }),
    {
        self.nonce = nonce;
    }

    /// Signs the transfer that the form names. The hint's nonce is taken over once the form
    /// is read, whether or not signing succeeds.
    pub fn on_send(
        &mut self,
        wallet: &KronKeypair,
        to: &str,
        amount: &str,
        hint: Option<ComposeHint>,
        genesis: TxHash,
    ) -> (r: Result<DagTransaction, SendFault>)
        requires
            old(self)@.guarded(),
        ensures
            final(self)@.guarded(),
            send_outcome(wallet, to@, amount@, hint, genesis, old(self)@.nonce, r),
            final(self)@ == (FlowView {
                nonce: if form_fields(to@, amount@) is Ok && hint is Some {
                    hint.unwrap().nonce
                } else {
                    old(self)@.nonce
                },
                ..old(self)@
            }),
    {
        let own: u64 = self.nonce;
        let hinted: Option<u64> = match &hint {
            Some(h) => Some(h.nonce),
            None => None,
        };
        let made = prepare_send(wallet, to, amount, hint, genesis, own);
        let read = match &made {
            Err(SendFault::Address(_)) => false,
            Err(SendFault::Amount(_)) => false,
            Err(SendFault::NotPositive) => false,
            _ => true,
        };
        if read {
            if let Some(nonce) = hinted {
                self.on_hint(nonce);
            }
        }
        made
    }

    /// A transfer with `nonce` went out: the next one counts on from it.
    pub fn on_broadcast(&mut self, nonce: u64)
        requires
            old(self)@.guarded(),
        ensures
            final(self)@.guarded(),
            final(self)@ == (FlowView {
                nonce: if nonce == u64::MAX {
                    u64::MAX
                } else {
                    (nonce + 1) as u64
                },
                ..old(self)@
            }),
    {
        self.nonce = nonce.saturating_add(1);
    }
}

/// The address that is polled: the watched one, or else the wallet's own.
pub fn polled_address(watch: &str, own: &str) -> (r: String)
    ensures
        r@ == (if trimmed(watch@).len() == 0 {
            own@
        } else {
            trimmed(watch@)
        }),
{
    let w = trim(chars_of(watch).as_slice());
    if w.len() == 0 {
        owned(own)
    } else {
        text_of(w.as_slice())
    }
}

/// A user who starts with the backup comes to the wallet only by saying that the
/// phrase was written down and by passing the quiz.
pub proof fn law_no_wallet_without_backup(f: FlowView, passed: bool)
    requires
        f.screen != Screen::Wallet,
        f.guarded(),
    ensures
        f.continued().screen != Screen::Wallet,
        f.gone_back().screen != Screen::Wallet,
        f.answered(passed).screen == Screen::Wallet ==> passed && f.wrote_it_down && f.screen
            == Screen::ConfirmPhrase,
        f.answered(passed).guarded(),
{
}

/// The steps of the backup: on to the quiz once the phrase was written down and not before, back
/// to the phrase, into the wallet by passing, and nowhere by failing. The wallet is not left
/// again, nothing is revealed on the way in, and the nonce stays.
pub proof fn law_steps_of_the_backup(f: FlowView, passed: bool)
    ensures
        f.screen == Screen::SavePhrase && f.wrote_it_down ==> f.continued().screen
            == Screen::ConfirmPhrase && !f.continued().quiz_failed,
        f.screen == Screen::SavePhrase && !f.wrote_it_down ==> f.continued() == f,
        f.screen == Screen::SavePhrase && f.wrote_it_down && !f.quiz_failed
            ==> f.continued().gone_back() == f,
        f.screen == Screen::ConfirmPhrase ==> f.gone_back().screen == Screen::SavePhrase
            && f.gone_back().wrote_it_down == f.wrote_it_down && !f.gone_back().quiz_failed,
        f.screen == Screen::ConfirmPhrase && passed ==> {
            &&& f.answered(passed).screen == Screen::Wallet
            &&& f.answered(passed).backed_up
            &&& !f.answered(passed).phrase_shown()
        },
        f.screen == Screen::ConfirmPhrase && !passed ==> f.answered(passed) == (FlowView {
            quiz_failed: true,
            ..f
        }),
        f.screen == Screen::Wallet ==> f.continued() == f && f.gone_back() == f && f.answered(passed)
            == f,
        f.continued().nonce == f.nonce && f.gone_back().nonce == f.nonce && f.answered(passed).nonce
            == f.nonce,
        f.backed_up ==> f.continued().backed_up && f.gone_back().backed_up && f.answered(
            passed,
        ).backed_up,
{
}

} // verus!

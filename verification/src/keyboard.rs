//! Pasting into the focused window, and submitting what was pasted.
use vstd::prelude::*;

use crate::platform::Platform;

verus! {

/// A key that goes down or up.
#[derive(Clone, Copy)]
pub struct KeyEvent {
    /// The code of the key, as the system counts them.
    pub code: u16,
    pub down: bool,
    /// Whether the command key counts as held.
    pub command: bool,
}

/// A key that goes down or up.
pub open spec fn key(code: u16, down: bool, command: bool) -> KeyEvent {
    KeyEvent { code, down, command }
}

/// The keys that paste: Control and V on Windows, V with the command key on macOS.
pub open spec fn paste_keys(platform: Platform) -> Seq<KeyEvent> {
    match platform {
        Platform::Windows => seq![
            key(0x11, true, false),
            key(0x56, true, false),
            key(0x56, false, false),
            key(0x11, false, false),
        ],
        Platform::MacOs => seq![key(9, true, true), key(9, false, true)],
        Platform::Other => seq![],
    }
}

/// The keys that submit: Enter.
pub open spec fn enter_keys(platform: Platform) -> Seq<KeyEvent> {
    match platform {
        Platform::Windows => seq![key(0x0d, true, false), key(0x0d, false, false)],
        Platform::MacOs => seq![key(36, true, false), key(36, false, false)],
        Platform::Other => seq![],
    }
}

/// Adds a key that goes down or up.
fn press(out: &mut Vec<KeyEvent>, code: u16, down: bool, command: bool)
    ensures
        final(out)@ == old(out)@.push(key(code, down, command)),
{
    out.push(KeyEvent { code, down, command });
}

/// The keys that paste.
pub fn simulate_paste(platform: Platform) -> (r: Vec<KeyEvent>)
    ensures
        r@ == paste_keys(platform),
{
    let mut out: Vec<KeyEvent> = Vec::new();
    match platform {
        Platform::Windows => {
            press(&mut out, 0x11, true, false);
            press(&mut out, 0x56, true, false);
            press(&mut out, 0x56, false, false);
            press(&mut out, 0x11, false, false);
        },
        Platform::MacOs => {
            press(&mut out, 9, true, true);
            press(&mut out, 9, false, true);
        },
        Platform::Other => {},
    }
    assert(out@ =~= paste_keys(platform));
    out
}

/// The keys that submit.
pub fn simulate_enter(platform: Platform) -> (r: Vec<KeyEvent>)
    ensures
        r@ == enter_keys(platform),
{
    let mut out: Vec<KeyEvent> = Vec::new();
    match platform {
        Platform::Windows => {
            press(&mut out, 0x0d, true, false);
            press(&mut out, 0x0d, false, false);
        },
        Platform::MacOs => {
            press(&mut out, 36, true, false);
            press(&mut out, 36, false, false);
        },
        Platform::Other => {},
    }
    assert(out@ =~= enter_keys(platform));
    out
}

/// A step of pasting.
pub enum KeyStep {
    Keys(Vec<KeyEvent>),
    /// Wait for so many milliseconds.
    Pause(u64),
}

/// A step of pasting.
#[verifier::ext_equal]
pub enum StepView {
    Keys(Seq<KeyEvent>),
    Pause(u64),
}

impl View for KeyStep {
    type V = StepView;

    open spec fn view(&self) -> StepView {
        match self {
            KeyStep::Keys(k) => StepView::Keys(k@),
            KeyStep::Pause(n) => StepView::Pause(*n),
        }
    }
}

/// What the steps are.
pub open spec fn step_views(v: Seq<KeyStep>) -> Seq<StepView> {
    Seq::new(v.len(), |i: int| v[i]@)
}

/// What is done once a text has been copied: it is pasted, and submitted after a short pause
/// where that is wanted. Nothing is done where it could not be copied.
pub open spec fn paste_steps(platform: Platform, copied: bool, submit: bool) -> Seq<StepView> {
    if !copied {
        seq![]
    } else if !submit {
        seq![StepView::Keys(paste_keys(platform))]
    } else {
        seq![
            StepView::Keys(paste_keys(platform)),
            StepView::Pause(100),
            StepView::Keys(enter_keys(platform)),
        ]
    }
}

/// What is done once it is known whether the text has been copied.
pub fn copy_paste_submit(platform: Platform, copied: bool, submit: bool) -> (r: Vec<KeyStep>)
    ensures
        step_views(r@) == paste_steps(platform, copied, submit),
{
    let mut out: Vec<KeyStep> = Vec::new();
    if copied {
        out.push(KeyStep::Keys(simulate_paste(platform)));
        if submit {
            out.push(KeyStep::Pause(100));
            out.push(KeyStep::Keys(simulate_enter(platform)));
        }
    }
    assert(step_views(out@) =~= paste_steps(platform, copied, submit));
    out
}

// ───────────────────────── laws ─────────────────────────

/// The keys that are held down after these events.
pub open spec fn held_keys(events: Seq<KeyEvent>) -> Set<u16>
    decreases events.len(),
{
    if events.len() == 0 {
        Set::empty()
    } else if events.last().down {
        held_keys(events.drop_last()).insert(events.last().code)
    } else {
        held_keys(events.drop_last()).remove(events.last().code)
    }
}

/// No key stays held.
pub proof fn keys_are_released(platform: Platform)
    ensures
        held_keys(paste_keys(platform)) =~= Set::<u16>::empty(),
        held_keys(enter_keys(platform)) =~= Set::<u16>::empty(),
{
    reveal_with_fuel(held_keys, 5);
    let p = paste_keys(platform);
    let e = enter_keys(platform);
    match platform {
        Platform::Windows => {
            assert(p.drop_last().drop_last().drop_last().drop_last() =~= seq![]);
            assert(e.drop_last().drop_last() =~= seq![]);
        },
        Platform::MacOs => {
            assert(p.drop_last().drop_last() =~= seq![]);
            assert(e.drop_last().drop_last() =~= seq![]);
        },
        Platform::Other => {},
    }
}

/// Nothing is submitted that was not to be, nor before it has been pasted; and no key is touched
/// where the text could not be copied.
pub proof fn enter_only_where_wanted(platform: Platform, copied: bool, submit: bool)
    ensures
        ({
            let steps = paste_steps(platform, copied, submit);
            &&& steps.len() > 0 <==> copied
            &&& steps.len() > 1 <==> copied && submit
            &&& steps.len() > 0 ==> steps[0] == StepView::Keys(paste_keys(platform))
            &&& steps.len() > 1 ==> steps.last() == StepView::Keys(enter_keys(platform))
        }),
{
}

/// What is pressed to paste is V, with Control held on Windows and with the command key on macOS; and
/// what is pressed to submit is Enter, with nothing held.
pub proof fn the_right_keys_are_pressed()
    ensures
        ({
            let p = paste_keys(Platform::Windows);
            &&& held_keys(p.take(1)) =~= set![0x11u16]
            &&& p[1] == key(0x56, true, false)
            &&& p.len() == 4
        }),
        ({
            let p = paste_keys(Platform::MacOs);
            &&& p.len() == 2
            &&& p[0] == key(9, true, true)
            &&& p[1] == key(9, false, true)
        }),
        ({
            let e = enter_keys(Platform::Windows);
            e.len() == 2 && e[0] == key(0x0d, true, false) && e[1] == key(0x0d, false, false)
        }),
        ({
            let e = enter_keys(Platform::MacOs);
            e.len() == 2 && e[0] == key(36, true, false) && e[1] == key(36, false, false)
        }),
{
    let one = paste_keys(Platform::Windows).take(1);
    assert(one.drop_last() =~= seq![]);
    reveal_with_fuel(held_keys, 2);
}

} // verus!

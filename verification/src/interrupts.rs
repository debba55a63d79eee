use vstd::prelude::*;

verus! {

/// The first interrupt number of the primary interrupt controller.
pub const PIC_1_OFFSET: u8 = 32;

/// The first interrupt number of the secondary interrupt controller,
/// right after the eight of the primary one.
pub const PIC_2_OFFSET: u8 = 40;

/// The hardware interrupts the kernel handles, numbered from the primary
/// controller's offset on.
#[derive(Clone, Copy, Debug, PartialEq, Eq, Structural)]
pub enum InterruptIndex {
    Timer,
    Keyboard,
}

/// The interrupt vector of an interrupt line.
pub open spec fn interrupt_number(i: InterruptIndex) -> u8 {
    match i {
        InterruptIndex::Timer => PIC_1_OFFSET,
        InterruptIndex::Keyboard => (PIC_1_OFFSET + 1) as u8,
    }
}

impl InterruptIndex {
    pub fn as_u8(self) -> (r: u8)
        ensures
            r == interrupt_number(self),
    {
        match self {
            InterruptIndex::Timer => PIC_1_OFFSET,
            InterruptIndex::Keyboard => PIC_1_OFFSET + 1,
        }
    }

    pub fn as_usize(self) -> (r: usize)
        ensures
            r == interrupt_number(self),
    {
        let n = self.as_u8();
        n as usize
    }
}

/// The two interrupt controllers take disjoint ranges of eight vectors,
/// and the kernel's interrupt lines are vectors of the primary controller.
pub proof fn lemma_interrupt_numbers()
    ensures
        PIC_2_OFFSET == PIC_1_OFFSET + 8,
        forall|i: InterruptIndex|
            PIC_1_OFFSET <= #[trigger] interrupt_number(i) < PIC_2_OFFSET,
        interrupt_number(InterruptIndex::Timer) != interrupt_number(InterruptIndex::Keyboard),
{
}

} // verus!

verus! {

#[verifier::external_type_specification]
#[verifier::external_body]
pub struct ExKeyCode(pc_keyboard::KeyCode);

#[verifier::external_type_specification]
#[verifier::external_body]
pub struct ExKeyboardError(pc_keyboard::Error);

#[verifier::external_type_specification]
#[verifier::external_body]
pub struct ExKeyEvent(pc_keyboard::KeyEvent);

/// The state the keyboard interrupt keeps from one scancode to the next:
/// pc-keyboard's decoder for the US 104-key layout and scancode set 1,
/// held whole. Its decode state (waiting for a code, or for the second byte
/// of an extended code) and the modifier keys it remembers are kept inside
/// it, out of the verifier's sight.
#[verifier::external_body]
pub struct KeyboardState {
    keyboard: pc_keyboard::Keyboard<pc_keyboard::layouts::Us104Key, pc_keyboard::ScancodeSet1>,
}

/// A key event the decoder has made out of scancodes, not yet turned into
/// a key, and whether it is a key press (`KeyState::Down`) rather than a
/// release.
pub struct PendingKey {
    event: pc_keyboard::KeyEvent,
    pressed: bool,
}

impl PendingKey {
    /// The event is a key press.
    pub closed spec fn is_press(&self) -> bool {
        self.pressed
    }
}

/// What a key press gives: a character, or a key that has none.
#[derive(Clone, Copy, Debug, PartialEq, Eq)]
pub enum KeyOutput {
    Char(char),
    RawKey(pc_keyboard::KeyCode),
}

impl KeyboardState {
    /// `pc_keyboard::Keyboard::new` with the US 104-key layout, scancode
    /// set 1 and Ctrl combinations passed through as letters
    /// (`HandleControl::Ignore`), the decoder the kernel uses. The new
    /// decoder's state is not stated.
    #[verifier::external_body]
    pub fn new() -> (r: KeyboardState) {
        KeyboardState {
            keyboard: pc_keyboard::Keyboard::new(
                pc_keyboard::layouts::Us104Key,
                pc_keyboard::ScancodeSet1,
                pc_keyboard::HandleControl::Ignore,
            ),
        }
    }

    /// `pc_keyboard::Keyboard::add_byte`: feeds one scancode byte to the
    /// decoder, which is in scancode set 1 either waiting for a code or
    /// for the byte after the extended prefix 0xE0. A byte from 0x80 up is
    /// a release code, or the prefix itself (no event yet): it never gives
    /// a press. A byte below 0x80 is a press code: it gives a press, or an
    /// error for a code the set does not know. Which key, and how the
    /// decoder's state changes, depend on the bytes fed before and are not
    /// stated.
    #[verifier::external_body]
    fn add_byte(&mut self, byte: u8) -> (r: Result<Option<PendingKey>, pc_keyboard::Error>)
        ensures
            byte >= 0x80 ==> match r {
                Ok(Some(p)) => !p.is_press(),
                _ => true,
            },
            byte < 0x80 ==> match r {
                Ok(Some(p)) => p.is_press(),
                Ok(None) => false,
                Err(_) => true,
            },
    {
        match self.keyboard.add_byte(byte) {
            Ok(Some(event)) => {
                let pressed = match event.state {
                    pc_keyboard::KeyState::Down => true,
                    pc_keyboard::KeyState::Up => false,
                };
                Ok(Some(PendingKey { event, pressed }))
            },
            Ok(None) => Ok(None),
            Err(e) => Err(e),
        }
    }

    /// `pc_keyboard::Keyboard::process_keyevent`: turns a key event into
    /// the key it gives, if any, with each `DecodedKey` variant carried
    /// over to the `KeyOutput` variant of the same meaning. A release gives
    /// no key (it only updates a modifier). For a press, the key depends on
    /// the modifier keys held, which the decoder keeps, and is not stated.
    #[verifier::external_body]
    fn process_keyevent(&mut self, pending: PendingKey) -> (r: Option<KeyOutput>)
        ensures
            !pending.is_press() ==> r is None,
    {
        match self.keyboard.process_keyevent(pending.event) {
            Some(pc_keyboard::DecodedKey::Unicode(c)) => Some(KeyOutput::Char(c)),
            Some(pc_keyboard::DecodedKey::RawKey(k)) => Some(KeyOutput::RawKey(k)),
            None => None,
        }
    }
}

/// The key event to pass on from what the decoder made of a byte: the
/// event when it completed one, nothing when it completed none or reported
/// an error.
pub fn decoded_event(added: Result<Option<PendingKey>, pc_keyboard::Error>) -> (r: Option<
    PendingKey,
>)
    ensures
        r == match added {
            Ok(Some(p)) => Some(p),
            _ => None::<PendingKey>,
        },
{
    match added {
        Ok(Some(key_event)) => Some(key_event),
        _ => None,
    }
}

/// Handles one scancode read from the keyboard: feeds it to the decoder
/// and, when it completes a key event, turns that event into the key
/// pressed. Gives `None` when the byte completes no event or the decoder
/// reports an error, and otherwise what the event gives (`None` for a
/// modifier or a key release); which of these happens is the decoder's.
pub fn handle_scancode(state: &mut KeyboardState, scancode: u8) -> (r: Option<KeyOutput>)
    ensures
        scancode >= 0x80 ==> r is None,
{
    let added = state.add_byte(scancode);
    match decoded_event(added) {
        Some(key_event) => state.process_keyevent(key_event),
        None => None,
    }
}

} // verus!

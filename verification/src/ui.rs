use vstd::prelude::*;

verus! {

/// The current and previous value of a piece of interface state, such as whether an
/// element is hovered or pressed.
pub struct UiStateDetails<T> {
    pub current: T,
    pub previous: T,
    pub accepts_state: bool,
}

impl Default for UiStateDetails<bool> {
    fn default() -> (r: Self)
        ensures
            r.current == false,
            r.previous == false,
            r.accepts_state == false,
    {
        UiStateDetails { current: false, previous: false, accepts_state: false }
    }
}

impl UiStateDetails<bool> {
    /// The state was on and is now off.
    pub fn exited(&self) -> (r: bool)
        ensures
            r == (!self.current && self.previous),
    {
        !self.current && self.previous
    }

    /// The state was off and is now on.
    pub fn entered(&self) -> (r: bool)
        ensures
            r == (self.current && !self.previous),
    {
        self.current && !self.previous
    }
}

/// The direction in which a scrolling element lays out its children.
#[derive(Clone, Copy, PartialEq, Eq, Debug, Structural)]
pub enum LayoutDirection {
    Vertical,
    Horizontal,
}

/// A change that the pointer makes to one state of an element: the state's previous
/// value becomes its current one, and its current value becomes the one named.
#[derive(Clone, Copy, PartialEq, Eq, Debug, Structural)]
pub enum ElementChange {
    /// The scroll state goes back to no scroll.
    ScrollCleared,
    /// The scroll state takes this frame's scroll.
    Scrolled,
    /// The selected state becomes the value.
    Selected(bool),
    /// The click state becomes the value.
    Clicked(bool),
    /// The click state stays as it is for one more frame.
    ClickHeld,
}

/// Which elements the pointer acts on, by entity id: the one pressed and the one
/// released last frame, the one selected and the one deselected last frame, and the
/// one scrolled last frame.
#[derive(Clone, Copy, PartialEq, Eq, Debug, Structural)]
pub struct InputState {
    pub ui_element_clicked: Option<u64>,
    pub ui_element_clicked_buffered: Option<u64>,
    pub ui_element_selected: Option<u64>,
    pub ui_element_selected_buffered: Option<u64>,
    pub ui_element_scrolled: Option<u64>,
}

/// `change` for `target`, where there is one.
pub open spec fn change_for(target: Option<u64>, change: ElementChange) -> Seq<(u64, ElementChange)> {
    match target {
        Some(e) => seq![(e, change)],
        None => Seq::empty(),
    }
}

/// The changes that close the last frame, in order: the scrolled element stops
/// scrolling; the element deselected last frame, unless selected again, ends
/// deselected; the selected element stays selected unless the left button was just
/// pressed; the element released last frame, unless pressed again, ends released; the
/// pressed element stays pressed while the left button is held and is released
/// otherwise.
pub open spec fn settling_changes(s: InputState, left_pressed: bool, left_just_pressed: bool) -> Seq<(u64, ElementChange)> {
    change_for(s.ui_element_scrolled, ElementChange::ScrollCleared)
        + (if s.ui_element_selected != s.ui_element_selected_buffered {
            change_for(s.ui_element_selected_buffered, ElementChange::Selected(false))
        } else {
            Seq::empty()
        })
        + change_for(s.ui_element_selected, ElementChange::Selected(!left_just_pressed))
        + (if s.ui_element_clicked != s.ui_element_clicked_buffered {
            change_for(s.ui_element_clicked_buffered, ElementChange::Clicked(false))
        } else {
            Seq::empty()
        })
        + change_for(s.ui_element_clicked, if left_pressed { ElementChange::ClickHeld } else { ElementChange::Clicked(false) })
}

/// The state once the last frame is closed: nothing is scrolled, a just pressed left
/// button moves the selection to the deselected slot, and a released left button
/// moves the pressed element to the released slot.
pub open spec fn settled(s: InputState, left_pressed: bool, left_just_pressed: bool) -> InputState {
    InputState {
        ui_element_clicked: if left_pressed { s.ui_element_clicked } else { None },
        ui_element_clicked_buffered: if left_pressed { None } else { s.ui_element_clicked },
        ui_element_selected: if left_just_pressed { None } else { s.ui_element_selected },
        ui_element_selected_buffered: if left_just_pressed { s.ui_element_selected } else { None },
        ui_element_scrolled: None,
    }
}

/// The state and changes once the elements under the pointer are known: a just
/// pressed left button presses the click target, or else selects the select target;
/// with the left button up the scroll target scrolls.
pub open spec fn targeted(s: InputState, left_pressed: bool, left_just_pressed: bool, click_target: Option<u64>,
    select_target: Option<u64>, scroll_target: Option<u64>) -> (InputState, Seq<(u64, ElementChange)>) {
    if left_just_pressed {
        match click_target {
            Some(e) => (InputState { ui_element_clicked: Some(e), ..s }, seq![(e, ElementChange::Clicked(true))]),
            None => match select_target {
                Some(e) => (InputState { ui_element_selected: Some(e), ..s }, seq![(e, ElementChange::Selected(true))]),
                None => (s, Seq::empty()),
            },
        }
    } else if !left_pressed {
        match scroll_target {
            Some(e) => (InputState { ui_element_scrolled: Some(e), ..s }, seq![(e, ElementChange::Scrolled)]),
            None => (s, Seq::empty()),
        }
    } else {
        (s, Seq::empty())
    }
}

fn push_change(changes: &mut Vec<(u64, ElementChange)>, target: Option<u64>, change: ElementChange)
    ensures
        final(changes)@ == old(changes)@ + change_for(target, change),
{
    if let Some(e) = target {
        changes.push((e, change));
    }
    proof {
        assert(final(changes)@ =~= old(changes)@ + change_for(target, change));
    }
}

impl Default for InputState {
    fn default() -> (r: Self)
        ensures
            r.ui_element_clicked is None,
            r.ui_element_clicked_buffered is None,
            r.ui_element_selected is None,
            r.ui_element_selected_buffered is None,
            r.ui_element_scrolled is None,
    {
        InputState {
            ui_element_clicked: None,
            ui_element_clicked_buffered: None,
            ui_element_selected: None,
            ui_element_selected_buffered: None,
            ui_element_scrolled: None,
        }
    }
}

impl InputState {
    /// Whether some element holds the selection, such as a field being typed in.
    pub fn has_selection(&self) -> (r: bool)
        ensures
            r == self.ui_element_selected is Some,
    {
        self.ui_element_selected.is_some()
    }

    /// Closes the last frame from the state of the left button, and returns the changes
    /// to make to the elements, in order.
    pub fn settle(&mut self, left_pressed: bool, left_just_pressed: bool) -> (r: Vec<(u64, ElementChange)>)
        ensures
            *final(self) == settled(*old(self), left_pressed, left_just_pressed),
            r@ == settling_changes(*old(self), left_pressed, left_just_pressed),
    {
        let mut changes: Vec<(u64, ElementChange)> = Vec::new();
        push_change(&mut changes, self.ui_element_scrolled, ElementChange::ScrollCleared);
        self.ui_element_scrolled = None;
        if self.ui_element_selected != self.ui_element_selected_buffered {
            push_change(&mut changes, self.ui_element_selected_buffered, ElementChange::Selected(false));
        }
        self.ui_element_selected_buffered = None;
        push_change(&mut changes, self.ui_element_selected, ElementChange::Selected(!left_just_pressed));
        if left_just_pressed {
            self.ui_element_selected_buffered = self.ui_element_selected;
            self.ui_element_selected = None;
        }
        if self.ui_element_clicked != self.ui_element_clicked_buffered {
            push_change(&mut changes, self.ui_element_clicked_buffered, ElementChange::Clicked(false));
        }
        self.ui_element_clicked_buffered = None;
        let held = if left_pressed { ElementChange::ClickHeld } else { ElementChange::Clicked(false) };
        push_change(&mut changes, self.ui_element_clicked, held);
        if !left_pressed {
            self.ui_element_clicked_buffered = self.ui_element_clicked;
            self.ui_element_clicked = None;
        }
        proof {
            assert(changes@ =~= settling_changes(*old(self), left_pressed, left_just_pressed));
        }
        changes
    }

    /// Acts on the elements found under the pointer, and returns the changes to make
    /// to them. Without a pointer over the window every target is `None`.
    pub fn take_targets(&mut self, left_pressed: bool, left_just_pressed: bool, click_target: Option<u64>,
        select_target: Option<u64>, scroll_target: Option<u64>) -> (r: Vec<(u64, ElementChange)>)
        ensures
            (*final(self), r@) == targeted(*old(self), left_pressed, left_just_pressed, click_target, select_target, scroll_target),
    {
        let mut changes: Vec<(u64, ElementChange)> = Vec::new();
        if left_just_pressed {
            match click_target {
                Some(e) => {
                    changes.push((e, ElementChange::Clicked(true)));
                    self.ui_element_clicked = Some(e);
                },
                None => {
                    if let Some(e) = select_target {
                        changes.push((e, ElementChange::Selected(true)));
                        self.ui_element_selected = Some(e);
                    }
                },
            }
        } else if !left_pressed {
            if let Some(e) = scroll_target {
                changes.push((e, ElementChange::Scrolled));
                self.ui_element_scrolled = Some(e);
            }
        }
        proof {
            assert(changes@ =~= targeted(*old(self), left_pressed, left_just_pressed, click_target, select_target, scroll_target).1);
        }
        changes
    }
}

/// A number field's value once an erase key, where `erased`, has dropped its last
/// digit (not going below `min`).
pub open spec fn after_erase(value: u32, min: u32, erased: bool) -> int {
    if erased {
        if value / 10 >= min { (value / 10) as int } else { min as int }
    } else {
        value as int
    }
}

/// A number field's value after one frame of typing: an erase key drops the last digit,
/// not going below `min`; then the digit typed, if any, is appended, not going above
/// `max`.
pub open spec fn typed_number(value: u32, min: u32, max: u32, erased: bool, digit: Option<u32>) -> int {
    let v = after_erase(value, min, erased);
    match digit {
        Some(d) => if v * 10 + d <= max { v * 10 + d } else { max as int },
        None => v,
    }
}

/// The value of a number field after one frame of typing (see `typed_number`), or
/// `None` where appending the digit does not fit in a `u32`.
pub fn edit_number(value: u32, min: u32, max: u32, erased: bool, digit: Option<u32>) -> (r: Option<u32>)
    requires
        digit is Some ==> digit->0 < 10,
    ensures
        match r {
            Some(v) => v == typed_number(value, min, max, erased, digit),
            None => digit is Some && after_erase(value, min, erased) * 10 + digit->0 > u32::MAX,
        },
{
    let mut v = value;
    if erased {
        v = if value / 10 >= min { value / 10 } else { min };
    }
    match digit {
        Some(d) => {
            if v > (u32::MAX - d) / 10 {
                return None;
            }
            let appended = v * 10 + d;
            Some(if appended <= max { appended } else { max })
        },
        None => Some(v),
    }
}

/// A control character: a C0 or C1 control code.
pub open spec fn control_char(c: char) -> bool {
    (c as u32) <= 0x1f || (0x7f <= (c as u32) && (c as u32) <= 0x9f)
}

/// Whether `c` is a control character.
pub fn is_control(c: char) -> (r: bool)
    ensures
        r == control_char(c),
{
    let code = c as u32;
    code <= 0x1f || (0x7f <= code && code <= 0x9f)
}

/// A text field's text after the characters `typed`, one by one: delete and backspace
/// drop the last character, if any; other control characters do nothing; any other
/// character is appended.
pub open spec fn typed_text(current: Seq<char>, typed: Seq<char>) -> Seq<char>
    decreases typed.len(),
{
    if typed.len() == 0 {
        current
    } else {
        let t = typed_text(current, typed.drop_last());
        let c = typed.last();
        if (c as u32) == 0x7f || (c as u32) == 0x08 {
            if t.len() > 0 { t.drop_last() } else { t }
        } else if !control_char(c) {
            t.push(c)
        } else {
            t
        }
    }
}

/// Applies the characters `typed` to a text field's text (see `typed_text`). Where
/// `confirmed`, the field is emptied and the text is returned.
pub fn edit_text(current: &mut Vec<char>, typed: &Vec<char>, confirmed: bool) -> (r: Option<Vec<char>>)
    ensures
        confirmed ==> final(current)@ == Seq::<char>::empty() && r is Some && r->0@ == typed_text(old(current)@, typed@),
        !confirmed ==> final(current)@ == typed_text(old(current)@, typed@) && r is None,
{
    let mut i: usize = 0;
    while i < typed.len()
        invariant
            i <= typed@.len(),
            current@ == typed_text(old(current)@, typed@.subrange(0, i as int)),
        decreases typed@.len() - i,
    {
        let c = typed[i];
        proof {
            let next = typed@.subrange(0, i + 1);
            assert(next.drop_last() =~= typed@.subrange(0, i as int));
            assert(next.last() == c);
        }
        let code = c as u32;
        if code == 0x7f || code == 0x08 {
            current.pop();
        } else if !is_control(c) {
            current.push(c);
        }
        i = i + 1;
    }
    proof {
        assert(typed@.subrange(0, typed@.len() as int) =~= typed@);
    }
    if confirmed {
        let mut text: Vec<char> = Vec::new();
        std::mem::swap(&mut text, current);
        Some(text)
    } else {
        None
    }
}

/// The image a button shows.
#[derive(Clone, Copy, PartialEq, Eq, Debug, Structural)]
pub enum ButtonImage {
    Default,
    Hover,
    Pressed,
}

/// What a button does when its element changed: whether it sends its event, and the
/// image it switches to, if any.
#[derive(Clone, Copy, PartialEq, Eq, Debug, Structural)]
pub struct ButtonReaction {
    pub send_event: bool,
    pub image: Option<ButtonImage>,
}

/// What a button does: a press shows the pressed image; a release sends the event and
/// shows the hover image while hovered, else the default image; otherwise, while not
/// held down or without a pressed image, entering the hover shows the hover image and
/// leaving it the default image. An image the button lacks is not shown.
pub open spec fn reaction_of(click: UiStateDetails<bool>, hover: UiStateDetails<bool>, has_pressed_image: bool,
    has_hover_image: bool) -> ButtonReaction {
    if click.current && !click.previous {
        ButtonReaction { send_event: false, image: if has_pressed_image { Some(ButtonImage::Pressed) } else { None } }
    } else if !click.current && click.previous {
        ButtonReaction {
            send_event: true,
            image: Some(if hover.current && has_hover_image { ButtonImage::Hover } else { ButtonImage::Default }),
        }
    } else if (!click.current || !has_pressed_image) && has_hover_image {
        if hover.current && !hover.previous {
            ButtonReaction { send_event: false, image: Some(ButtonImage::Hover) }
        } else if !hover.current && hover.previous {
            ButtonReaction { send_event: false, image: Some(ButtonImage::Default) }
        } else {
            ButtonReaction { send_event: false, image: None }
        }
    } else {
        ButtonReaction { send_event: false, image: None }
    }
}

/// What a button does after its element changed (see `reaction_of`).
pub fn button_reaction(click: &UiStateDetails<bool>, hover: &UiStateDetails<bool>, has_pressed_image: bool,
    has_hover_image: bool) -> (r: ButtonReaction)
    ensures
        r == reaction_of(*click, *hover, has_pressed_image, has_hover_image),
{
    if click.entered() {
        ButtonReaction { send_event: false, image: if has_pressed_image { Some(ButtonImage::Pressed) } else { None } }
    } else if click.exited() {
        let image = if hover.current && has_hover_image { ButtonImage::Hover } else { ButtonImage::Default };
        ButtonReaction { send_event: true, image: Some(image) }
    } else if (!click.current || !has_pressed_image) && has_hover_image {
        if hover.entered() {
            ButtonReaction { send_event: false, image: Some(ButtonImage::Hover) }
        } else if hover.exited() {
            ButtonReaction { send_event: false, image: Some(ButtonImage::Default) }
        } else {
            ButtonReaction { send_event: false, image: None }
        }
    } else {
        ButtonReaction { send_event: false, image: None }
    }
}

} // verus!

//! The interactive session state: the classified components of the
//! command being edited, the selection, the preview string, the input
//! buffer, and the per-component history options.

use vstd::prelude::*;

use crate::strutil::from_chars;
use crate::strutil::push_char;
use crate::strutil::to_chars;

verus! {

/// One classified piece of a command line: a leading word, an option
/// name, an option's argument or positional argument, or a preserved
/// line break.
#[derive(Debug)]
pub enum CommandComponent {
    Base(String),
    Flag(String),
    Value(String),
    LineBreak,
}

/// The mathematical shadow of a [`CommandComponent`].
pub enum ComponentSpec {
    Base(Seq<char>),
    Flag(Seq<char>),
    Value(Seq<char>),
    LineBreak,
}

impl View for CommandComponent {
    type V = ComponentSpec;

    open spec fn view(&self) -> ComponentSpec {
        match self {
            CommandComponent::Base(s) => ComponentSpec::Base(s@),
            CommandComponent::Flag(s) => ComponentSpec::Flag(s@),
            CommandComponent::Value(s) => ComponentSpec::Value(s@),
            CommandComponent::LineBreak => ComponentSpec::LineBreak,
        }
    }
}

impl DeepView for CommandComponent {
    type V = ComponentSpec;

    open spec fn deep_view(&self) -> ComponentSpec {
        self.view()
    }
}

impl PartialEq for CommandComponent {
    fn eq(&self, other: &Self) -> (r: bool) {
        match (self, other) {
            (CommandComponent::Base(a), CommandComponent::Base(b)) => crate::strutil::str_eq(
                a.as_str(),
                b.as_str(),
            ),
            (CommandComponent::Flag(a), CommandComponent::Flag(b)) => crate::strutil::str_eq(
                a.as_str(),
                b.as_str(),
            ),
            (CommandComponent::Value(a), CommandComponent::Value(b)) => crate::strutil::str_eq(
                a.as_str(),
                b.as_str(),
            ),
            (CommandComponent::LineBreak, CommandComponent::LineBreak) => true,
            _ => false,
        }
    }
}

impl Eq for CommandComponent {

}

impl vstd::std_specs::cmp::PartialEqSpecImpl for CommandComponent {
    open spec fn obeys_eq_spec() -> bool {
        true
    }

    open spec fn eq_spec(&self, other: &Self) -> bool {
        self@ == other@
    }
}

impl Clone for CommandComponent {
    /// The copy carries the same classification and text.
    fn clone(&self) -> (r: Self)
        ensures
            r@ == self@,
    {
        match self {
            CommandComponent::Base(s) => CommandComponent::Base(clone_string(s)),
            CommandComponent::Flag(s) => CommandComponent::Flag(clone_string(s)),
            CommandComponent::Value(s) => CommandComponent::Value(clone_string(s)),
            CommandComponent::LineBreak => CommandComponent::LineBreak,
        }
    }
}

/// Relies on `String::clone`: the copy equals the original.
fn clone_string(s: &String) -> (r: String)
    ensures
        r@ == s@,
{
    s.clone()
}

/// How one character is written inside the preview's double quotes: a
/// double quote gets a backslash, everything else stays.
pub open spec fn preview_esc_char(c: char) -> Seq<char> {
    if c == '"' {
        seq!['\\', c]
    } else {
        seq![c]
    }
}

/// The body of the preview's double-quoted form of `s`.
pub open spec fn preview_esc(s: Seq<char>) -> Seq<char>
    decreases s.len(),
{
    if s.len() == 0 {
        Seq::empty()
    } else {
        preview_esc_char(s[0]) + preview_esc(s.drop_first())
    }
}

/// The preview form of one component: wrapped in double quotes with inner
/// double quotes escaped when it contains a space, unchanged otherwise.
pub open spec fn spec_preview_quote(s: Seq<char>) -> Seq<char> {
    if s.contains(' ') {
        seq!['"'] + preview_esc(s) + seq!['"']
    } else {
        s
    }
}

/// Quotes a component for display in the preview line: only spaces force
/// quoting, and only inner double quotes are escaped.
pub fn quote_if_needed(s: &str) -> (r: String)
    ensures
        r@ == spec_preview_quote(s@),
{
    let v = to_chars(s);
    let n: usize = v.len();

    let mut has_space = false;
    let mut i: usize = 0;
    while i < n
        invariant
            i <= n,
            n == v@.len(),
            v@ == s@,
            has_space == exists|j: int| 0 <= j < i && v@[j] == ' ',
        decreases n - i,
    {
        if v[i] == ' ' {
            has_space = true;
        }
        i = i + 1;
    }
    if !has_space {
        proof {
            assert(!s@.contains(' '));
        }
        return s.to_owned();
    }

    let mut out: Vec<char> = Vec::new();
    out.push('"');
    let mut i: usize = 0;
    proof {
        assert(s@.contains(' '));
        assert(out@ =~= seq!['"'] + preview_esc(v@.take(0)));
    }
    while i < n
        invariant
            i <= n,
            n == v@.len(),
            out@ == seq!['"'] + preview_esc(v@.take(i as int)),
        decreases n - i,
    {
        let ghost pre = out@;
        let c = v[i];
        if c == '"' {
            out.push('\\');
            out.push(c);
        } else {
            out.push(c);
        }
        i = i + 1;
        proof {
            lemma_preview_esc_take_succ(v@, i as int - 1);
            assert(out@ =~= pre + preview_esc_char(c));
        }
    }
    out.push('"');
    proof {
        assert(v@.take(n as int) =~= v@);
        assert(out@ =~= seq!['"'] + preview_esc(v@) + seq!['"']);
    }
    from_chars(&out)
}

proof fn lemma_preview_esc_concat(a: Seq<char>, b: Seq<char>)
    ensures
        preview_esc(a + b) == preview_esc(a) + preview_esc(b),
    decreases a.len(),
{
    if a.len() == 0 {
        assert(a + b =~= b);
        assert(preview_esc(a) + preview_esc(b) =~= preview_esc(b));
    } else {
        assert((a + b)[0] == a[0]);
        assert((a + b).drop_first() =~= a.drop_first() + b);
        lemma_preview_esc_concat(a.drop_first(), b);
        assert(preview_esc_char(a[0]) + (preview_esc(a.drop_first()) + preview_esc(b)) =~= (
        preview_esc_char(a[0]) + preview_esc(a.drop_first())) + preview_esc(b));
    }
}

proof fn lemma_preview_esc_take_succ(s: Seq<char>, i: int)
    requires
        0 <= i < s.len(),
    ensures
        preview_esc(s.take(i + 1)) == preview_esc(s.take(i)) + preview_esc_char(s[i]),
{
    assert(s.take(i + 1) =~= s.take(i) + seq![s[i]]);
    lemma_preview_esc_concat(s.take(i), seq![s[i]]);
    assert(seq![s[i]].drop_first() =~= Seq::<char>::empty());
    assert(preview_esc(Seq::<char>::empty()) == Seq::<char>::empty());
    assert(preview_esc(seq![s[i]]) == preview_esc_char(s[i]) + preview_esc(Seq::<char>::empty()));
    assert(preview_esc(seq![s[i]]) =~= preview_esc_char(s[i]));
}

/// Whether the component can be selected: everything but a line break.
pub open spec fn is_selectable(c: ComponentSpec) -> bool {
    !(c is LineBreak)
}

/// The text a component carries; a line break carries none.
pub open spec fn comp_text(c: ComponentSpec) -> Seq<char> {
    match c {
        ComponentSpec::Base(s) => s,
        ComponentSpec::Flag(s) => s,
        ComponentSpec::Value(s) => s,
        ComponentSpec::LineBreak => Seq::empty(),
    }
}

/// The same kind of component carrying `t` instead.
pub open spec fn with_text(c: ComponentSpec, t: Seq<char>) -> ComponentSpec {
    match c {
        ComponentSpec::Base(s) => ComponentSpec::Base(t),
        ComponentSpec::Flag(s) => ComponentSpec::Flag(t),
        ComponentSpec::Value(s) => ComponentSpec::Value(t),
        ComponentSpec::LineBreak => ComponentSpec::LineBreak,
    }
}

/// The first selectable component at or after `i`, if any.
pub open spec fn first_selectable_from(comps: Seq<ComponentSpec>, i: int) -> Option<int>
    decreases comps.len() - i,
{
    if i < 0 || i >= comps.len() {
        None
    } else if is_selectable(comps[i]) {
        Some(i)
    } else {
        first_selectable_from(comps, i + 1)
    }
}

/// The next selectable component after `cur`, stepping forward
/// cyclically from `start` and giving up after `fuel` steps or upon
/// coming back around to `start`.
pub open spec fn scan_forward(comps: Seq<ComponentSpec>, start: int, cur: int, fuel: nat) -> Option<
    int,
>
    decreases fuel,
{
    if fuel == 0 {
        None
    } else {
        let nxt = if cur >= comps.len() - 1 {
            0int
        } else {
            cur + 1
        };
        if nxt == start {
            None
        } else if 0 <= nxt < comps.len() && is_selectable(comps[nxt]) {
            Some(nxt)
        } else {
            scan_forward(comps, start, nxt, (fuel - 1) as nat)
        }
    }
}

/// The previous selectable component before `cur`, stepping backward
/// cyclically from `start`.
pub open spec fn scan_backward(comps: Seq<ComponentSpec>, start: int, cur: int, fuel: nat) -> Option<
    int,
>
    decreases fuel,
{
    if fuel == 0 {
        None
    } else {
        let nxt = if cur == 0 {
            comps.len() - 1
        } else {
            cur - 1
        };
        if nxt == start {
            None
        } else if 0 <= nxt < comps.len() && is_selectable(comps[nxt]) {
            Some(nxt)
        } else {
            scan_backward(comps, start, nxt, (fuel - 1) as nat)
        }
    }
}

/// The preview texts of the components, line breaks skipped.
pub open spec fn preview_parts(comps: Seq<ComponentSpec>) -> Seq<Seq<char>>
    decreases comps.len(),
{
    if comps.len() == 0 {
        Seq::empty()
    } else if comps[0] is LineBreak {
        preview_parts(comps.drop_first())
    } else {
        seq![spec_preview_quote(comp_text(comps[0]))] + preview_parts(comps.drop_first())
    }
}

/// The preview line: the quoted components joined with single spaces.
pub open spec fn preview_spec(comps: Seq<ComponentSpec>) -> Seq<char> {
    crate::strutil::join_spaced(preview_parts(comps))
}

/// The final command from component `i` on: each word quoted shell-safely
/// by the serializer ([`crate::command::spec_quote`]), separated by
/// spaces, except right after a line break, which itself serializes as a
/// space, a backslash and a newline.
pub open spec fn final_cmd_from(comps: Seq<ComponentSpec>, i: int) -> Seq<char>
    decreases comps.len() - i,
{
    if i < 0 || i >= comps.len() {
        Seq::empty()
    } else if comps[i] is LineBreak {
        seq![' ', '\\', '\n'] + final_cmd_from(comps, i + 1)
    } else {
        (if i > 0 && !(comps[i - 1] is LineBreak) {
            seq![' ']
        } else {
            Seq::empty()
        }) + crate::command::spec_quote(comp_text(comps[i])) + final_cmd_from(comps, i + 1)
    }
}

/// The serialized final command.
pub open spec fn final_cmd_spec(comps: Seq<ComponentSpec>) -> Seq<char> {
    final_cmd_from(comps, 0)
}

/// Without line breaks, the final command is the quoted component texts
/// joined with single spaces (with a leading space before any component
/// that is not the first).
proof fn lemma_final_cmd_join(comps: Seq<ComponentSpec>, i: int)
    requires
        0 <= i <= comps.len(),
        forall|m: int| 0 <= m < comps.len() ==> !((#[trigger] comps[m]) is LineBreak),
    ensures
        final_cmd_from(comps, i) == (if 0 < i < comps.len() {
            seq![' ']
        } else {
            Seq::<char>::empty()
        }) + crate::strutil::join_spaced(
            comps.map_values(|c: ComponentSpec| crate::command::spec_quote(comp_text(c))).skip(i),
        ),
    decreases comps.len() - i,
{
    let m = comps.map_values(|c: ComponentSpec| crate::command::spec_quote(comp_text(c)));
    let e = Seq::<char>::empty();
    if i == comps.len() {
        assert(m.skip(i) =~= Seq::<Seq<char>>::empty());
        assert(crate::strutil::join_spaced(Seq::<Seq<char>>::empty()) == e);
        assert(e + e =~= e);
    } else {
        lemma_final_cmd_join(comps, i + 1);
        let tail = m.skip(i);
        assert(tail[0] == m[i]);
        assert(m[i] == crate::command::spec_quote(comp_text(comps[i])));
        assert(tail.drop_first() =~= m.skip(i + 1));
        let sep: Seq<char> = if i > 0 {
            seq![' ']
        } else {
            e
        };
        assert(final_cmd_from(comps, i) == sep + crate::command::spec_quote(comp_text(comps[i]))
            + final_cmd_from(comps, i + 1));
        if i + 1 == comps.len() {
            assert(tail.len() == 1);
            assert(crate::strutil::join_spaced(tail) == m[i]);
            assert(final_cmd_from(comps, i + 1) == e + crate::strutil::join_spaced(m.skip(i + 1)));
            assert(m.skip(i + 1) =~= Seq::<Seq<char>>::empty());
            assert(crate::strutil::join_spaced(Seq::<Seq<char>>::empty()) == e);
            assert(sep + m[i] + (e + e) =~= sep + crate::strutil::join_spaced(tail));
        } else {
            assert(tail.len() >= 2);
            assert(crate::strutil::join_spaced(tail) == tail[0] + seq![' ']
                + crate::strutil::join_spaced(tail.drop_first()));
            assert(final_cmd_from(comps, i + 1) == seq![' '] + crate::strutil::join_spaced(
                m.skip(i + 1),
            ));
            assert(sep + m[i] + (seq![' '] + crate::strutil::join_spaced(m.skip(i + 1))) =~= sep + (
            m[i] + seq![' '] + crate::strutil::join_spaced(tail.drop_first())));
        }
    }
}

/// The final-command round trip: for a document of word components with
/// non-empty texts, word-splitting the serialized final command yields
/// exactly the component texts, in order.  (A line break serializes as a
/// backslash-newline, which a full re-parse consumes as a line
/// continuation before word-splitting; an empty component serializes to
/// nothing and would vanish from the joined line.)
pub proof fn lemma_final_command_round_trip(comps: Seq<ComponentSpec>)
    requires
        forall|m: int| 0 <= m < comps.len() ==> !((#[trigger] comps[m]) is LineBreak),
        forall|m: int| 0 <= m < comps.len() ==> comp_text(#[trigger] comps[m]).len() > 0,
    ensures
        crate::tokenize::split_words_spec(final_cmd_spec(comps)) == Some(
            comps.map_values(|c: ComponentSpec| comp_text(c)),
        ),
{
    let texts = comps.map_values(|c: ComponentSpec| comp_text(c));
    let m = comps.map_values(|c: ComponentSpec| crate::command::spec_quote(comp_text(c)));
    lemma_final_cmd_join(comps, 0);
    assert(m.skip(0) =~= m);
    assert(Seq::<char>::empty() + crate::strutil::join_spaced(m) =~= crate::strutil::join_spaced(
        m,
    ));
    assert(m =~= texts.map_values(|t: Seq<char>| crate::command::spec_quote(t)));
    assert forall|w: int| 0 <= w < texts.len() implies (#[trigger] texts[w]).len() > 0 by {
        assert(texts[w] == comp_text(comps[w]));
    }
    crate::command::lemma_serialize_round_trip(texts);
}

/// The position of `v` in `vs`, or `vs.len()` when absent.
pub open spec fn find_value(vs: Seq<Seq<char>>, v: Seq<char>) -> int
    decreases vs.len(),
{
    if vs.len() == 0 {
        0
    } else if vs[0] == v {
        0
    } else {
        1 + find_value(vs.drop_first(), v)
    }
}

/// The starting cycle position for a live value: its position in the
/// option list when present, position zero otherwise.
pub open spec fn cycle_start(vs: Seq<Seq<char>>, v: Seq<char>) -> int {
    if find_value(vs, v) < vs.len() {
        find_value(vs, v)
    } else {
        0
    }
}

/// One keystroke handed in by the rendering layer.
#[derive(Clone, Copy, PartialEq, Eq, Structural, Debug)]
pub enum KeyInput {
    Char(char),
    CtrlX,
    Enter,
    Esc,
    Backspace,
    Up,
    Down,
    Left,
    Right,
    Other,
}

/// What the session should do after a keystroke.
#[derive(Clone, Copy, PartialEq, Eq, Structural, Debug)]
pub enum KeyOutcome {
    /// Keep editing.
    Continue,
    /// Serialize the command and hand it back.
    Execute,
    /// Leave without a result.
    Quit,
}

/// The interactive session state over the classified components.
pub struct App {
    components: Vec<CommandComponent>,
    selected: Option<usize>,
    preview_command: String,
    input_mode: bool,
    current_input: String,
    history_options: Vec<Option<Vec<String>>>,
    current_option_index: Vec<usize>,
    cursor_y: u16,
}

impl App {
    /// The classified components.
    pub closed spec fn comps_view(&self) -> Seq<ComponentSpec> {
        self.components.deep_view()
    }

    /// The selected component index.
    pub closed spec fn selected_view(&self) -> Option<usize> {
        self.selected
    }

    /// The preview line.
    pub closed spec fn preview_view(&self) -> Seq<char> {
        self.preview_command@
    }

    /// Whether a value is being typed.
    pub closed spec fn input_mode_view(&self) -> bool {
        self.input_mode
    }

    /// The text typed so far.
    pub closed spec fn input_view(&self) -> Seq<char> {
        self.current_input@
    }

    /// The option list attached to component `i`, if any.
    pub closed spec fn options_view(&self, i: int) -> Option<Seq<Seq<char>>> {
        if 0 <= i < self.history_options@.len() {
            match self.history_options@[i] {
                None => None,
                Some(vs) => Some(vs.deep_view()),
            }
        } else {
            None
        }
    }

    /// The cycle position of component `i`'s option list.
    pub closed spec fn cycle_view(&self, i: int) -> int {
        if 0 <= i < self.current_option_index@.len() {
            self.current_option_index@[i] as int
        } else {
            0
        }
    }

    /// The terminal row the session started on.
    pub closed spec fn cursor_y_view(&self) -> u16 {
        self.cursor_y
    }

    /// How many entries the option table holds.
    pub closed spec fn options_len(&self) -> int {
        self.history_options@.len() as int
    }

    /// How many entries the cycle table holds.
    pub closed spec fn cycles_len(&self) -> int {
        self.current_option_index@.len() as int
    }

    /// The parallel tables match the components, the preview matches the
    /// components, the selection is a selectable index, and every option
    /// list is non-empty with its cycle position in range.
    pub open spec fn wf(&self) -> bool {
        &&& self.options_len() == self.comps_view().len()
        &&& self.cycles_len() == self.comps_view().len()
        &&& self.preview_view() == preview_spec(self.comps_view())
        &&& match self.selected_view() {
            None => true,
            Some(i) => i < self.comps_view().len() && is_selectable(self.comps_view()[i as int]),
        }
        &&& forall|i: int|
            0 <= i < self.comps_view().len() ==> match #[trigger] self.options_view(i) {
                None => true,
                Some(vs) => vs.len() > 0 && 0 <= self.cycle_view(i) < vs.len(),
            }
    }

    /// Everything except the selection is unchanged.
    pub open spec fn only_selection_changed(self, pre: App) -> bool {
        &&& self.comps_view() == pre.comps_view()
        &&& self.preview_view() == pre.preview_view()
        &&& self.input_mode_view() == pre.input_mode_view()
        &&& self.input_view() == pre.input_view()
        &&& self.cursor_y_view() == pre.cursor_y_view()
        &&& forall|i: int| #[trigger] self.options_view(i) == pre.options_view(i)
        &&& forall|i: int| #[trigger] self.cycle_view(i) == pre.cycle_view(i)
    }

    /// Everything except the input mode and buffer is unchanged.
    pub open spec fn only_input_changed(self, pre: App) -> bool {
        &&& self.comps_view() == pre.comps_view()
        &&& self.preview_view() == pre.preview_view()
        &&& self.selected_view() == pre.selected_view()
        &&& self.cursor_y_view() == pre.cursor_y_view()
        &&& forall|i: int| #[trigger] self.options_view(i) == pre.options_view(i)
        &&& forall|i: int| #[trigger] self.cycle_view(i) == pre.cycle_view(i)
    }

    /// Nothing observable changed.
    pub open spec fn unchanged(self, pre: App) -> bool {
        &&& self.only_selection_changed(pre)
        &&& self.selected_view() == pre.selected_view()
    }

    /// How `next` changes the state: the selection moves forward
    /// cyclically to the next selectable component, staying put when
    /// there is none.
    pub open spec fn next_rel(pre: App, post: App) -> bool {
        &&& post.only_selection_changed(pre)
        &&& if pre.comps_view().len() == 0 {
            post.selected_view() == pre.selected_view()
        } else {
            let start = match pre.selected_view() {
                Some(i) => i as int,
                None => 0int,
            };
            match scan_forward(pre.comps_view(), start, start, pre.comps_view().len() as nat) {
                Some(x) => post.selected_view() == Some(x as usize),
                None => post.selected_view() == pre.selected_view(),
            }
        }
    }

    /// How `previous` changes the state: the mirror image of `next`.
    pub open spec fn previous_rel(pre: App, post: App) -> bool {
        &&& post.only_selection_changed(pre)
        &&& if pre.comps_view().len() == 0 {
            post.selected_view() == pre.selected_view()
        } else {
            let start = match pre.selected_view() {
                Some(i) => i as int,
                None => 0int,
            };
            match scan_backward(pre.comps_view(), start, start, pre.comps_view().len() as nat) {
                Some(x) => post.selected_view() == Some(x as usize),
                None => post.selected_view() == pre.selected_view(),
            }
        }
    }

    /// How `start_input` changes the state: with a selection, editing
    /// begins on the selected component's text.
    pub open spec fn start_input_rel(pre: App, post: App) -> bool {
        &&& post.only_input_changed(pre)
        &&& match pre.selected_view() {
            None => post.input_mode_view() == pre.input_mode_view() && post.input_view()
                == pre.input_view(),
            Some(i) => post.input_mode_view() && post.input_view() == comp_text(
                pre.comps_view()[i as int],
            ),
        }
    }

    /// How `confirm_input` changes the state: with a selection, the typed
    /// text replaces the selected component's text (keeping its kind) and
    /// the preview is rebuilt; editing always ends with an empty buffer.
    pub open spec fn confirm_rel(pre: App, post: App) -> bool {
        &&& !post.input_mode_view()
        &&& post.input_view() == Seq::<char>::empty()
        &&& post.selected_view() == pre.selected_view()
        &&& post.cursor_y_view() == pre.cursor_y_view()
        &&& (forall|i: int| #[trigger] post.options_view(i) == pre.options_view(i))
        &&& (forall|i: int| #[trigger] post.cycle_view(i) == pre.cycle_view(i))
        &&& match pre.selected_view() {
            None => post.comps_view() == pre.comps_view() && post.preview_view()
                == pre.preview_view(),
            Some(i) => post.comps_view() == pre.comps_view().update(
                i as int,
                with_text(pre.comps_view()[i as int], pre.input_view()),
            ) && post.preview_view() == preview_spec(post.comps_view()),
        }
    }

    /// How `cancel_input` changes the state: editing ends, the buffer
    /// empties, nothing else moves.
    pub open spec fn cancel_rel(pre: App, post: App) -> bool {
        &&& post.only_input_changed(pre)
        &&& !post.input_mode_view()
        &&& post.input_view() == Seq::<char>::empty()
    }

    /// How `next_option` changes the state: on a selected value component
    /// with options, the cycle position advances by one, wrapping at the
    /// end, and the option at the new position becomes the live value.
    pub open spec fn next_option_rel(pre: App, post: App) -> bool {
        match pre.selected_view() {
            None => post.unchanged(pre),
            Some(i) => if !(pre.comps_view()[i as int] is Value) {
                post.unchanged(pre)
            } else {
                match pre.options_view(i as int) {
                    None => post.unchanged(pre),
                    Some(vs) => {
                        let idx = (pre.cycle_view(i as int) + 1) % (vs.len() as int);
                        post.cycled_to(pre, i as int, idx)
                    },
                }
            },
        }
    }

    /// How `previous_option` changes the state: the cycle position steps
    /// back by one, wrapping from the start to the end.
    pub open spec fn previous_option_rel(pre: App, post: App) -> bool {
        match pre.selected_view() {
            None => post.unchanged(pre),
            Some(i) => if !(pre.comps_view()[i as int] is Value) {
                post.unchanged(pre)
            } else {
                match pre.options_view(i as int) {
                    None => post.unchanged(pre),
                    Some(vs) => {
                        let idx = if pre.cycle_view(i as int) == 0 {
                            vs.len() as int - 1
                        } else {
                            pre.cycle_view(i as int) - 1
                        };
                        post.cycled_to(pre, i as int, idx)
                    },
                }
            },
        }
    }

    /// The state after cycling component `i`'s options to position `idx`.
    pub open spec fn cycled_to(self, pre: App, i: int, idx: int) -> bool {
        let vs = pre.options_view(i).unwrap();
        &&& self.comps_view() == pre.comps_view().update(i, ComponentSpec::Value(vs[idx]))
        &&& self.preview_view() == preview_spec(self.comps_view())
        &&& self.cycle_view(i) == idx
        &&& (forall|m: int| m != i ==> #[trigger] self.cycle_view(m) == pre.cycle_view(m))
        &&& (forall|m: int| #[trigger] self.options_view(m) == pre.options_view(m))
        &&& self.selected_view() == pre.selected_view()
        &&& self.input_mode_view() == pre.input_mode_view()
        &&& self.input_view() == pre.input_view()
        &&& self.cursor_y_view() == pre.cursor_y_view()
    }

    /// What a keystroke decides: `CtrlX` confirms, and outside input mode
    /// `q` or escape abandons the session; everything else continues.
    pub open spec fn outcome_spec(input_mode: bool, key: KeyInput) -> KeyOutcome {
        if input_mode {
            match key {
                KeyInput::CtrlX => KeyOutcome::Execute,
                _ => KeyOutcome::Continue,
            }
        } else {
            match key {
                KeyInput::CtrlX => KeyOutcome::Execute,
                KeyInput::Esc => KeyOutcome::Quit,
                KeyInput::Char(c) => if c == 'q' {
                    KeyOutcome::Quit
                } else {
                    KeyOutcome::Continue
                },
                _ => KeyOutcome::Continue,
            }
        }
    }
}

/// The options attached to component `i`: present exactly when it is a
/// value directly preceded by a flag with recorded history values.
pub open spec fn options_for(
    comps: Seq<ComponentSpec>,
    h: &crate::history::HistoryIndex,
    i: int,
) -> Option<Seq<Seq<char>>> {
    if 0 <= i < comps.len() && comps[i] is Value && i > 0 && comps[i - 1] is Flag && h.has_flag(
        comp_text(comps[i - 1]),
    ) {
        Some(h.list_for(comp_text(comps[i - 1])))
    } else {
        None
    }
}

proof fn lemma_preview_parts_concat(a: Seq<ComponentSpec>, b: Seq<ComponentSpec>)
    ensures
        preview_parts(a + b) == preview_parts(a) + preview_parts(b),
    decreases a.len(),
{
    if a.len() == 0 {
        assert(a + b =~= b);
        assert(preview_parts(a) + preview_parts(b) =~= preview_parts(b));
    } else {
        assert((a + b)[0] == a[0]);
        assert((a + b).drop_first() =~= a.drop_first() + b);
        lemma_preview_parts_concat(a.drop_first(), b);
        if !(a[0] is LineBreak) {
            let q = seq![spec_preview_quote(comp_text(a[0]))];
            assert(q + (preview_parts(a.drop_first()) + preview_parts(b)) =~= (q + preview_parts(
                a.drop_first(),
            )) + preview_parts(b));
        }
    }
}

proof fn lemma_preview_parts_take_succ(cs: Seq<ComponentSpec>, i: int)
    requires
        0 <= i < cs.len(),
    ensures
        preview_parts(cs.take(i + 1)) == preview_parts(cs.take(i)) + (if cs[i] is LineBreak {
            Seq::<Seq<char>>::empty()
        } else {
            seq![spec_preview_quote(comp_text(cs[i]))]
        }),
{
    assert(cs.take(i + 1) =~= cs.take(i) + seq![cs[i]]);
    lemma_preview_parts_concat(cs.take(i), seq![cs[i]]);
    assert(seq![cs[i]].drop_first() =~= Seq::<ComponentSpec>::empty());
    assert(preview_parts(Seq::<ComponentSpec>::empty()) =~= Seq::<Seq<char>>::empty());
    if cs[i] is LineBreak {
        assert(preview_parts(seq![cs[i]]) =~= Seq::<Seq<char>>::empty());
        assert(preview_parts(cs.take(i)) + Seq::<Seq<char>>::empty() =~= preview_parts(
            cs.take(i),
        ));
    } else {
        assert(preview_parts(seq![cs[i]]) =~= seq![spec_preview_quote(comp_text(cs[i]))]);
    }
}

/// The preview line for a component list: quoted parts joined by spaces.
fn preview_string(components: &Vec<CommandComponent>) -> (r: String)
    ensures
        r@ == preview_spec(components.deep_view()),
{
    let ghost cs = components.deep_view();
    let ghost m = preview_parts(cs);
    let n: usize = components.len();
    let mut out = String::new();
    let mut emitted = false;
    let mut i: usize = 0;
    let ghost parts_done = preview_parts(cs.take(0));
    proof {
        assert(cs.take(0) =~= Seq::<ComponentSpec>::empty());
        assert(preview_parts(cs.take(0)) =~= Seq::<Seq<char>>::empty());
    }
    while i < n
        invariant
            i <= n,
            n == components@.len(),
            cs == components.deep_view(),
            cs.len() == n,
            emitted == (preview_parts(cs.take(i as int)).len() > 0),
            out@ == crate::strutil::join_spaced(preview_parts(cs.take(i as int))),
        decreases n - i,
    {
        proof {
            assert(cs[i as int] == components@[i as int]@);
            lemma_preview_parts_take_succ(cs, i as int);
        }
        let ghost pre = out@;
        let ghost done = preview_parts(cs.take(i as int));
        match &components[i] {
            CommandComponent::LineBreak => {
                proof {
                    assert(preview_parts(cs.take(i as int + 1)) =~= done);
                }
            },
            CommandComponent::Base(s) => {
                let q = quote_if_needed(s.as_str());
                if emitted {
                    push_char(&mut out, ' ');
                }
                out.append(q.as_str());
                emitted = true;
                proof {
                    crate::strutil::lemma_join_spaced_push(done, q@);
                }
            },
            CommandComponent::Flag(s) => {
                let q = quote_if_needed(s.as_str());
                if emitted {
                    push_char(&mut out, ' ');
                }
                out.append(q.as_str());
                emitted = true;
                proof {
                    crate::strutil::lemma_join_spaced_push(done, q@);
                }
            },
            CommandComponent::Value(s) => {
                let q = quote_if_needed(s.as_str());
                if emitted {
                    push_char(&mut out, ' ');
                }
                out.append(q.as_str());
                emitted = true;
                proof {
                    crate::strutil::lemma_join_spaced_push(done, q@);
                }
            },
        }
        proof {
            if !(cs[i as int] is LineBreak) {
                assert(preview_parts(cs.take(i as int + 1)) =~= done.push(
                    spec_preview_quote(comp_text(cs[i as int])),
                ));
            }
        }
        i = i + 1;
    }
    proof {
        assert(cs.take(n as int) =~= cs);
    }
    out
}

/// Copies a list of strings.
fn clone_strings(v: &Vec<String>) -> (r: Vec<String>)
    ensures
        r.deep_view() == v.deep_view(),
        r@.len() == v@.len(),
{
    let n: usize = v.len();
    let mut r: Vec<String> = Vec::new();
    let mut i: usize = 0;
    proof {
        assert(r.deep_view() =~= v.deep_view().take(0));
    }
    while i < n
        invariant
            i <= n,
            n == v@.len(),
            r@.len() == i,
            r.deep_view() == v.deep_view().take(i as int),
        decreases n - i,
    {
        let ghost pre = r.deep_view();
        r.push(v[i].as_str().to_owned());
        i = i + 1;
        proof {
            assert(r.deep_view() =~= pre.push(v@[i - 1]@));
            assert(v.deep_view()[i - 1] == v@[i - 1]@);
            assert(r.deep_view() =~= v.deep_view().take(i as int));
        }
    }
    proof {
        assert(v.deep_view().take(n as int) =~= v.deep_view());
    }
    r
}

/// The position of `needle` in `vs`, or its length when absent.
fn position_of(vs: &Vec<String>, needle: &str) -> (r: usize)
    ensures
        r == find_value(vs.deep_view(), needle@),
        r <= vs.deep_view().len(),
{
    let ghost dv = vs.deep_view();
    let n: usize = vs.len();
    let mut i: usize = 0;
    proof {
        assert(dv.skip(0) =~= dv);
        lemma_find_value_bounds(dv, needle@);
    }
    while i < n
        invariant
            i <= n,
            n == vs@.len(),
            dv == vs.deep_view(),
            dv.len() == n,
            find_value(dv, needle@) == i + find_value(dv.skip(i as int), needle@),
            find_value(dv.skip(i as int), needle@) >= 0,
        decreases n - i,
    {
        proof {
            assert(dv.skip(i as int)[0] == dv[i as int]);
            assert(dv[i as int] == vs@[i as int]@);
            assert(dv.skip(i as int).drop_first() =~= dv.skip(i as int + 1));
            lemma_find_value_bounds(dv.skip(i as int + 1), needle@);
        }
        if crate::strutil::str_eq(vs[i].as_str(), needle) {
            return i;
        }
        i = i + 1;
    }
    proof {
        assert(dv.skip(n as int) =~= Seq::<Seq<char>>::empty());
    }
    n
}

proof fn lemma_find_value_bounds(vs: Seq<Seq<char>>, v: Seq<char>)
    ensures
        0 <= find_value(vs, v) <= vs.len(),
    decreases vs.len(),
{
    if vs.len() > 0 && vs[0] != v {
        lemma_find_value_bounds(vs.drop_first(), v);
    }
}

impl App {
    /// Builds the session state from freshly classified components and
    /// the history index: the first selectable component is selected, the
    /// preview is rendered, and every value component directly preceded
    /// by a flag with recorded history gets that flag's option list, its
    /// cycle position starting at the live value when present.
    pub fn new(
        components: Vec<CommandComponent>,
        history: &crate::history::HistoryIndex,
        cursor_y: u16,
    ) -> (r: App)
        requires
            history.wf(),
        ensures
            r.wf(),
            r.comps_view() == components.deep_view(),
            match first_selectable_from(components.deep_view(), 0) {
                None => r.selected_view() is None,
                Some(x) => r.selected_view() == Some(x as usize),
            },
            r.preview_view() == preview_spec(components.deep_view()),
            !r.input_mode_view(),
            r.input_view() == Seq::<char>::empty(),
            r.cursor_y_view() == cursor_y,
            forall|i: int|
                0 <= i < components.deep_view().len() ==> #[trigger] r.options_view(i)
                    == options_for(components.deep_view(), history, i),
            forall|i: int|
                0 <= i < components.deep_view().len() ==> #[trigger] r.cycle_view(i) == match
                    options_for(components.deep_view(), history, i) {
                    Some(vs) => cycle_start(vs, comp_text(components.deep_view()[i])),
                    None => 0int,
                },
    {
        let ghost cs = components.deep_view();
        let n: usize = components.len();

        let mut selected: Option<usize> = None;
        let mut i: usize = 0;
        loop
            invariant_except_break
                i <= n,
                n == components@.len(),
                cs == components.deep_view(),
                cs.len() == n,
                selected is None,
                first_selectable_from(cs, 0) == first_selectable_from(cs, i as int),
            ensures
                match selected {
                    None => first_selectable_from(cs, 0) is None,
                    Some(x) => first_selectable_from(cs, 0) == Some(x as int) && x < n
                        && is_selectable(cs[x as int]),
                },
            decreases n - i,
        {
            if i >= n {
                proof {
                    assert(first_selectable_from(cs, n as int) is None);
                }
                break ;
            }
            proof {
                assert(cs[i as int] == components@[i as int]@);
            }
            let sel = match &components[i] {
                CommandComponent::LineBreak => false,
                _ => true,
            };
            if sel {
                selected = Some(i);
                proof {
                    assert(first_selectable_from(cs, i as int) == Some(i as int));
                }
                break ;
            }
            i = i + 1;
        }

        let preview_command = preview_string(&components);

        let mut history_options: Vec<Option<Vec<String>>> = Vec::new();
        let mut current_option_index: Vec<usize> = Vec::new();
        let mut idx: usize = 0;
        while idx < n
            invariant
                idx <= n,
                n == components@.len(),
                cs == components.deep_view(),
                cs.len() == n,
                history.wf(),
                history_options@.len() == idx,
                current_option_index@.len() == idx,
                forall|m: int|
                    0 <= m < idx ==> #[trigger] table_entry(history_options@, m) == options_for(
                        cs,
                        history,
                        m,
                    ),
                forall|m: int|
                    0 <= m < idx ==> #[trigger] current_option_index@[m] as int == match
                        options_for(cs, history, m) {
                        Some(vs) => cycle_start(vs, comp_text(cs[m])),
                        None => 0int,
                    },
                forall|m: int|
                    0 <= m < idx ==> match #[trigger] table_entry(history_options@, m) {
                        None => true,
                        Some(vs) => vs.len() > 0 && 0 <= current_option_index@[m] < vs.len(),
                    },
            decreases n - idx,
        {
            proof {
                assert(cs[idx as int] == components@[idx as int]@);
                if idx > 0 {
                    assert(cs[idx as int - 1] == components@[idx as int - 1]@);
                }
            }
            let mut opt: Option<Vec<String>> = None;
            let mut cyc: usize = 0;
            let is_value = match &components[idx] {
                CommandComponent::Value(_) => true,
                _ => false,
            };
            if is_value && idx > 0 {
                let flag_text = match &components[idx - 1] {
                    CommandComponent::Flag(fs) => Some(fs.as_str()),
                    _ => None,
                };
                match flag_text {
                    None => {},
                    Some(flag) => {
                        match history.get(flag) {
                            None => {},
                            Some(vs) => {
                                let current = match &components[idx] {
                                    CommandComponent::Value(cv) => cv.as_str(),
                                    _ => "",
                                };
                                let pos = position_of(vs, current);
                                cyc = if pos < vs.len() {
                                    pos
                                } else {
                                    0
                                };
                                opt = Some(clone_strings(vs));
                                proof {
                                    assert(comp_text(cs[idx as int]) == current@);
                                    assert(comp_text(cs[idx as int - 1]) == flag@);
                                }
                            },
                        }
                    },
                }
            }
            let ghost ho0 = history_options@;
            let ghost ci0 = current_option_index@;
            history_options.push(opt);
            current_option_index.push(cyc);
            idx = idx + 1;
            proof {
                assert forall|m: int| 0 <= m < idx implies #[trigger] table_entry(
                    history_options@,
                    m,
                ) == options_for(cs, history, m) by {
                    if m < idx - 1 {
                        assert(history_options@[m] == ho0[m]);
                        assert(table_entry(history_options@, m) == table_entry(ho0, m));
                    }
                }
            }
        }

        let r = App {
            components,
            selected,
            preview_command,
            input_mode: false,
            current_input: String::new(),
            history_options,
            current_option_index,
            cursor_y,
        };
        proof {
            assert forall|i2: int| 0 <= i2 < cs.len() implies #[trigger] r.options_view(i2)
                == options_for(cs, history, i2) by {
                assert(table_entry(r.history_options@, i2) == options_for(cs, history, i2));
            }
            assert forall|i2: int| 0 <= i2 < cs.len() implies #[trigger] r.cycle_view(i2) == match
                options_for(cs, history, i2) {
                Some(vs) => cycle_start(vs, comp_text(cs[i2])),
                None => 0int,
            } by {
                assert(r.cycle_view(i2) == r.current_option_index@[i2] as int);
            }
            assert forall|i2: int| 0 <= i2 < cs.len() implies match #[trigger] r.options_view(
                i2,
            ) {
                None => true,
                Some(vs) => vs.len() > 0 && 0 <= r.cycle_view(i2) < vs.len(),
            } by {
                assert(r.options_view(i2) == table_entry(r.history_options@, i2));
                assert(r.cycle_view(i2) == r.current_option_index@[i2] as int);
            }
        }
        r
    }

    /// The classified components.
    pub fn components(&self) -> (r: &Vec<CommandComponent>)
        ensures
            r.deep_view() == self.comps_view(),
    {
        &self.components
    }

    /// The selected component index.
    pub fn selected(&self) -> (r: Option<usize>)
        ensures
            r == self.selected_view(),
    {
        self.selected
    }

    /// The preview line.
    pub fn preview_command(&self) -> (r: &String)
        ensures
            r@ == self.preview_view(),
    {
        &self.preview_command
    }

    /// Whether a value is being typed.
    pub fn input_mode(&self) -> (r: bool)
        ensures
            r == self.input_mode_view(),
    {
        self.input_mode
    }

    /// The text typed so far.
    pub fn current_input(&self) -> (r: &String)
        ensures
            r@ == self.input_view(),
    {
        &self.current_input
    }

    /// The terminal row the session started on.
    pub fn cursor_y(&self) -> (r: u16)
        ensures
            r == self.cursor_y_view(),
    {
        self.cursor_y
    }

    /// The option cycle status of component `index`, as (position, total).
    pub fn option_status(&self, index: usize) -> (r: Option<(usize, usize)>)
        requires
            self.wf(),
            index < self.comps_view().len(),
        ensures
            match self.options_view(index as int) {
                None => r is None,
                Some(vs) => r == Some(
                    ((self.cycle_view(index as int) as usize, vs.len() as usize)),
                ),
            },
    {
        match &self.history_options[index] {
            None => None,
            Some(vs) => Some((self.current_option_index[index], vs.len())),
        }
    }

    /// Rebuilds the preview from the current components.
    pub fn update_preview(&mut self)
        requires
            old(self).wf(),
        ensures
            final(self).wf(),
            final(self).preview_view() == preview_spec(final(self).comps_view()),
            final(self).comps_view() == old(self).comps_view(),
            final(self).selected_view() == old(self).selected_view(),
            final(self).input_mode_view() == old(self).input_mode_view(),
            final(self).input_view() == old(self).input_view(),
            final(self).cursor_y_view() == old(self).cursor_y_view(),
            forall|i: int| #[trigger] final(self).options_view(i) == old(self).options_view(i),
            forall|i: int| #[trigger] final(self).cycle_view(i) == old(self).cycle_view(i),
    {
        let p = preview_string(&self.components);
        self.preview_command = p;
        proof {
            assert forall|i: int| #[trigger] self.options_view(i) == old(self).options_view(
                i,
            ) by {}
            assert forall|i: int| #[trigger] self.cycle_view(i) == old(self).cycle_view(i) by {}
        }
    }

    /// Serializes the final command: every word quoted shell-safely by
    /// the serializer and joined by spaces, with each kept line break
    /// emitted as a backslash-newline.  Word-splitting the result
    /// recovers the component texts ([`lemma_final_command_round_trip`]).
    pub fn build_final_command(&self) -> (r: String)
        ensures
            r@ == final_cmd_spec(self.comps_view()),
    {
        let ghost cs = self.comps_view();
        let n: usize = self.components.len();
        let mut out = String::new();
        let mut i: usize = 0;
        proof {
            assert(out@ + final_cmd_from(cs, 0) =~= final_cmd_from(cs, 0));
        }
        while i < n
            invariant
                i <= n,
                n == self.components@.len(),
                cs == self.comps_view(),
                cs.len() == n,
                final_cmd_spec(cs) == out@ + final_cmd_from(cs, i as int),
            decreases n - i,
        {
            proof {
                assert(cs[i as int] == self.components@[i as int]@);
                if i > 0 {
                    assert(cs[i as int - 1] == self.components@[i as int - 1]@);
                }
            }
            let ghost pre = out@;
            let brk = match &self.components[i] {
                CommandComponent::LineBreak => true,
                _ => false,
            };
            if brk {
                push_char(&mut out, ' ');
                push_char(&mut out, '\\');
                push_char(&mut out, '\n');
                proof {
                    assert(out@ =~= pre + seq![' ', '\\', '\n']);
                    assert(pre + (seq![' ', '\\', '\n'] + final_cmd_from(cs, i as int + 1)) =~= (
                    pre + seq![' ', '\\', '\n']) + final_cmd_from(cs, i as int + 1));
                }
            } else {
                let mut prev_break = false;
                if i > 0 {
                    prev_break = match &self.components[i - 1] {
                        CommandComponent::LineBreak => true,
                        _ => false,
                    };
                }
                let ghost sep: Seq<char> = if i > 0 && !(cs[i as int - 1] is LineBreak) {
                    seq![' ']
                } else {
                    Seq::<char>::empty()
                };
                if i > 0 && !prev_break {
                    push_char(&mut out, ' ');
                }
                let text = match &self.components[i] {
                    CommandComponent::Base(s) => crate::command::quote_if_needed(s.as_str()),
                    CommandComponent::Flag(s) => crate::command::quote_if_needed(s.as_str()),
                    CommandComponent::Value(s) => crate::command::quote_if_needed(s.as_str()),
                    CommandComponent::LineBreak => String::new(),
                };
                out.append(text.as_str());
                proof {
                    assert(out@ =~= pre + sep + crate::command::spec_quote(
                        comp_text(cs[i as int]),
                    ));
                    assert(pre + ((sep + crate::command::spec_quote(comp_text(cs[i as int])))
                        + final_cmd_from(cs, i as int + 1)) =~= (pre + sep
                        + crate::command::spec_quote(comp_text(cs[i as int]))) + final_cmd_from(
                        cs,
                        i as int + 1,
                    ));
                }
            }
            i = i + 1;
        }
        proof {
            assert(final_cmd_from(cs, n as int) =~= Seq::<char>::empty());
            assert(out@ + Seq::<char>::empty() =~= out@);
        }
        out
    }
}

/// The option table entry at `m`, as character sequences.
pub open spec fn table_entry(t: Seq<Option<Vec<String>>>, m: int) -> Option<Seq<Seq<char>>> {
    if 0 <= m < t.len() {
        match t[m] {
            None => None,
            Some(vs) => Some(vs.deep_view()),
        }
    } else {
        None
    }
}

impl App {
    /// Two states with the same tables show the same options and cycles.
    proof fn lemma_same_tables(pre: App, post: App)
        requires
            post.history_options == pre.history_options,
            post.current_option_index == pre.current_option_index,
        ensures
            forall|m: int| #[trigger] post.options_view(m) == pre.options_view(m),
            forall|m: int| #[trigger] post.cycle_view(m) == pre.cycle_view(m),
    {
        assert forall|m: int| #[trigger] post.options_view(m) == pre.options_view(m) by {}
        assert forall|m: int| #[trigger] post.cycle_view(m) == pre.cycle_view(m) by {}
    }

    /// Selects the next selectable component, wrapping past the end.
    pub fn next(&mut self)
        requires
            old(self).wf(),
        ensures
            final(self).wf(),
            App::next_rel(*old(self), *final(self)),
    {
        let n: usize = self.components.len();
        if n == 0 {
            return ;
        }
        let ghost cs = self.comps_view();
        let start: usize = match self.selected {
            Some(i) => i,
            None => 0,
        };
        let mut cur: usize = start;
        let mut fuel: usize = n;
        loop
            invariant_except_break
                n == self.components@.len(),
                n == cs.len(),
                n > 0,
                cs == self.comps_view(),
                self.wf(),
                *self == *old(self),
                start < n,
                cur < n,
                fuel <= n,
                start == match old(self).selected_view() {
                    Some(i) => i as int,
                    None => 0int,
                },
                scan_forward(cs, start as int, start as int, n as nat) == scan_forward(
                    cs,
                    start as int,
                    cur as int,
                    fuel as nat,
                ),
            ensures
                self.wf(),
                App::next_rel(*old(self), *self),
            decreases fuel,
        {
            if fuel == 0 {
                proof {
                    assert(scan_forward(cs, start as int, cur as int, 0nat) is None);
                }
                break ;
            }
            let nxt: usize = if cur >= n - 1 {
                0
            } else {
                cur + 1
            };
            if nxt == start {
                proof {
                    assert(scan_forward(cs, start as int, cur as int, fuel as nat) is None);
                }
                break ;
            }
            proof {
                assert(cs[nxt as int] == self.components@[nxt as int]@);
            }
            let sel = match &self.components[nxt] {
                CommandComponent::LineBreak => false,
                _ => true,
            };
            proof {
                assert(sel == is_selectable(cs[nxt as int]));
            }
            if sel {
                proof {
                    assert(scan_forward(cs, start as int, cur as int, fuel as nat) == Some(
                        nxt as int,
                    ));
                }
                self.selected = Some(nxt);
                proof {
                    Self::lemma_same_tables(*old(self), *self);
                }
                break ;
            }
            cur = nxt;
            fuel = fuel - 1;
        }
    }

    /// Selects the previous selectable component, wrapping past the start.
    pub fn previous(&mut self)
        requires
            old(self).wf(),
        ensures
            final(self).wf(),
            App::previous_rel(*old(self), *final(self)),
    {
        let n: usize = self.components.len();
        if n == 0 {
            return ;
        }
        let ghost cs = self.comps_view();
        let start: usize = match self.selected {
            Some(i) => i,
            None => 0,
        };
        let mut cur: usize = start;
        let mut fuel: usize = n;
        loop
            invariant_except_break
                n == self.components@.len(),
                n == cs.len(),
                n > 0,
                cs == self.comps_view(),
                self.wf(),
                *self == *old(self),
                start < n,
                cur < n,
                fuel <= n,
                start == match old(self).selected_view() {
                    Some(i) => i as int,
                    None => 0int,
                },
                scan_backward(cs, start as int, start as int, n as nat) == scan_backward(
                    cs,
                    start as int,
                    cur as int,
                    fuel as nat,
                ),
            ensures
                self.wf(),
                App::previous_rel(*old(self), *self),
            decreases fuel,
        {
            if fuel == 0 {
                proof {
                    assert(scan_backward(cs, start as int, cur as int, 0nat) is None);
                }
                break ;
            }
            let nxt: usize = if cur == 0 {
                n - 1
            } else {
                cur - 1
            };
            if nxt == start {
                proof {
                    assert(scan_backward(cs, start as int, cur as int, fuel as nat) is None);
                }
                break ;
            }
            proof {
                assert(cs[nxt as int] == self.components@[nxt as int]@);
            }
            let sel = match &self.components[nxt] {
                CommandComponent::LineBreak => false,
                _ => true,
            };
            proof {
                assert(sel == is_selectable(cs[nxt as int]));
            }
            if sel {
                proof {
                    assert(scan_backward(cs, start as int, cur as int, fuel as nat) == Some(
                        nxt as int,
                    ));
                }
                self.selected = Some(nxt);
                proof {
                    Self::lemma_same_tables(*old(self), *self);
                }
                break ;
            }
            cur = nxt;
            fuel = fuel - 1;
        }
    }

    /// Begins editing the selected component's text.
    pub fn start_input(&mut self)
        requires
            old(self).wf(),
        ensures
            final(self).wf(),
            App::start_input_rel(*old(self), *final(self)),
    {
        let i = match self.selected {
            None => {
                return ;
            },
            Some(i) => i,
        };
        proof {
            assert(self.comps_view()[i as int] == self.components@[i as int]@);
        }
        let text = match &self.components[i] {
            CommandComponent::Base(s) => clone_string(s),
            CommandComponent::Flag(s) => clone_string(s),
            CommandComponent::Value(s) => clone_string(s),
            CommandComponent::LineBreak => String::new(),
        };
        self.input_mode = true;
        self.current_input = text;
        proof {
            Self::lemma_same_tables(*old(self), *self);
        }
    }

    /// Alias kept for the key dispatcher: begins editing on enter.
    pub fn handle_enter(&mut self)
        requires
            old(self).wf(),
        ensures
            final(self).wf(),
            App::start_input_rel(*old(self), *final(self)),
    {
        self.start_input();
    }

    /// Commits the typed text into the selected component and leaves
    /// input mode.
    pub fn confirm_input(&mut self)
        requires
            old(self).wf(),
        ensures
            final(self).wf(),
            App::confirm_rel(*old(self), *final(self)),
    {
        match self.selected {
            None => {},
            Some(i) => {
                let ghost cs = self.comps_view();
                proof {
                    assert(cs[i as int] == self.components@[i as int]@);
                }
                let replacement = match &self.components[i] {
                    CommandComponent::Base(_) => CommandComponent::Base(
                        clone_string(&self.current_input),
                    ),
                    CommandComponent::Flag(_) => CommandComponent::Flag(
                        clone_string(&self.current_input),
                    ),
                    CommandComponent::Value(_) => CommandComponent::Value(
                        clone_string(&self.current_input),
                    ),
                    CommandComponent::LineBreak => CommandComponent::LineBreak,
                };
                let ghost rg = replacement;
                self.components.remove(i);
                self.components.insert(i, replacement);
                proof {
                    assert(self.components@ =~= old(self).components@.update(i as int, rg));
                    assert(self.comps_view() =~= cs.update(
                        i as int,
                        with_text(cs[i as int], old(self).input_view()),
                    ));
                }
                let p = preview_string(&self.components);
                self.preview_command = p;
            },
        }
        self.input_mode = false;
        self.current_input = String::new();
        proof {
            assert forall|m: int| #[trigger] self.options_view(m) == old(self).options_view(
                m,
            ) by {}
            assert forall|m: int| #[trigger] self.cycle_view(m) == old(self).cycle_view(m) by {}
        }
    }

    /// Leaves input mode, discarding the typed text.
    pub fn cancel_input(&mut self)
        requires
            old(self).wf(),
        ensures
            final(self).wf(),
            App::cancel_rel(*old(self), *final(self)),
    {
        self.input_mode = false;
        self.current_input = String::new();
        proof {
            assert forall|m: int| #[trigger] self.options_view(m) == old(self).options_view(
                m,
            ) by {}
            assert forall|m: int| #[trigger] self.cycle_view(m) == old(self).cycle_view(m) by {}
        }
    }

    /// Replaces the selected value with the next option in its cycle,
    /// wrapping from the last back to the first.
    pub fn next_option(&mut self)
        requires
            old(self).wf(),
        ensures
            final(self).wf(),
            App::next_option_rel(*old(self), *final(self)),
    {
        let i = match self.selected {
            None => {
                return ;
            },
            Some(i) => i,
        };
        let ghost cs = self.comps_view();
        proof {
            assert(cs[i as int] == self.components@[i as int]@);
        }
        let is_value = match &self.components[i] {
            CommandComponent::Value(_) => true,
            _ => false,
        };
        if !is_value {
            return ;
        }
        let (new_value, new_idx) = match &self.history_options[i] {
            None => {
                proof {
                    assert(self.options_view(i as int) is None);
                }
                return ;
            },
            Some(opts) => {
                proof {
                    assert(self.options_view(i as int) == Some(opts.deep_view()));
                }
                let len: usize = opts.len();
                let cur_idx = self.current_option_index[i];
                let next_idx = (cur_idx + 1) % len;
                proof {
                    assert(opts.deep_view()[next_idx as int] == opts@[next_idx as int]@);
                }
                (opts[next_idx].as_str().to_owned(), next_idx)
            },
        };
        self.apply_option(i, new_value, new_idx);
    }

    /// Replaces the selected value with the previous option in its cycle,
    /// wrapping from the first back to the last.
    pub fn previous_option(&mut self)
        requires
            old(self).wf(),
        ensures
            final(self).wf(),
            App::previous_option_rel(*old(self), *final(self)),
    {
        let i = match self.selected {
            None => {
                return ;
            },
            Some(i) => i,
        };
        let ghost cs = self.comps_view();
        proof {
            assert(cs[i as int] == self.components@[i as int]@);
        }
        let is_value = match &self.components[i] {
            CommandComponent::Value(_) => true,
            _ => false,
        };
        if !is_value {
            return ;
        }
        let (new_value, new_idx) = match &self.history_options[i] {
            None => {
                proof {
                    assert(self.options_view(i as int) is None);
                }
                return ;
            },
            Some(opts) => {
                proof {
                    assert(self.options_view(i as int) == Some(opts.deep_view()));
                }
                let len: usize = opts.len();
                let cur_idx = self.current_option_index[i];
                let prev_idx = if cur_idx == 0 {
                    len - 1
                } else {
                    cur_idx - 1
                };
                proof {
                    assert(opts.deep_view()[prev_idx as int] == opts@[prev_idx as int]@);
                }
                (opts[prev_idx].as_str().to_owned(), prev_idx)
            },
        };
        self.apply_option(i, new_value, new_idx);
    }

    /// Writes a cycled option into the live component and tables.
    fn apply_option(&mut self, i: usize, new_value: String, new_idx: usize)
        requires
            old(self).wf(),
            i < old(self).comps_view().len(),
            old(self).options_view(i as int) matches Some(vs) && new_idx < vs.len() && new_value@
                == vs[new_idx as int],
        ensures
            final(self).wf(),
            final(self).cycled_to(*old(self), i as int, new_idx as int),
    {
        let ghost cs = self.comps_view();
        let replacement = CommandComponent::Value(new_value);
        let ghost rg = replacement;
        self.components.remove(i);
        self.components.insert(i, replacement);
        self.current_option_index.remove(i);
        self.current_option_index.insert(i, new_idx);
        proof {
            assert(self.components@ =~= old(self).components@.update(i as int, rg));
            assert(self.current_option_index@ =~= old(self).current_option_index@.update(
                i as int,
                new_idx,
            ));
            assert(self.comps_view() =~= cs.update(
                i as int,
                ComponentSpec::Value(old(self).options_view(i as int).unwrap()[new_idx as int]),
            ));
        }
        let p = preview_string(&self.components);
        self.preview_command = p;
        proof {
            assert forall|m: int| #[trigger] self.options_view(m) == old(self).options_view(
                m,
            ) by {}
            assert forall|m: int| m != i ==> #[trigger] self.cycle_view(m) == old(self).cycle_view(m) by {}
            assert(self.selected == old(self).selected);
        }
    }

    /// Applies one keystroke: in input mode it edits the buffer, outside
    /// it navigates and cycles options; the returned outcome says whether
    /// to keep going, serialize and finish, or abandon the session.
    pub fn handle_key(&mut self, key: KeyInput) -> (r: KeyOutcome)
        requires
            old(self).wf(),
        ensures
            final(self).wf(),
            r == App::outcome_spec(old(self).input_mode_view(), key),
            old(self).input_mode_view() ==> match key {
                KeyInput::Enter => App::confirm_rel(*old(self), *final(self)),
                KeyInput::Esc => App::cancel_rel(*old(self), *final(self)),
                KeyInput::Backspace => final(self).only_input_changed(*old(self)) && final(self).input_mode_view() == old(self).input_mode_view() && final(self).input_view()
                    == (if old(self).input_view().len() == 0 {
                    old(self).input_view()
                } else {
                    old(self).input_view().drop_last()
                }),
                KeyInput::Char(c) => final(self).only_input_changed(*old(self)) && final(self).input_mode_view() == old(self).input_mode_view() && final(self).input_view()
                    == old(self).input_view().push(c),
                _ => final(self).unchanged(*old(self)),
            },
            !old(self).input_mode_view() ==> match key {
                KeyInput::Right => App::next_rel(*old(self), *final(self)),
                KeyInput::Left => App::previous_rel(*old(self), *final(self)),
                KeyInput::Up => App::previous_option_rel(*old(self), *final(self)),
                KeyInput::Down => App::next_option_rel(*old(self), *final(self)),
                KeyInput::Enter => App::start_input_rel(*old(self), *final(self)),
                _ => final(self).unchanged(*old(self)),
            },
    {
        if self.input_mode {
            match key {
                KeyInput::Enter => {
                    self.confirm_input();
                    KeyOutcome::Continue
                },
                KeyInput::Esc => {
                    self.cancel_input();
                    KeyOutcome::Continue
                },
                KeyInput::Backspace => {
                    push_pop(&mut self.current_input);
                    proof {
                        Self::lemma_same_tables(*old(self), *self);
                    }
                    KeyOutcome::Continue
                },
                KeyInput::CtrlX => KeyOutcome::Execute,
                KeyInput::Char(c) => {
                    push_char(&mut self.current_input, c);
                    proof {
                        Self::lemma_same_tables(*old(self), *self);
                    }
                    KeyOutcome::Continue
                },
                _ => KeyOutcome::Continue,
            }
        } else {
            match key {
                KeyInput::Char(c) => {
                    if c == 'q' {
                        KeyOutcome::Quit
                    } else {
                        KeyOutcome::Continue
                    }
                },
                KeyInput::Esc => KeyOutcome::Quit,
                KeyInput::CtrlX => KeyOutcome::Execute,
                KeyInput::Right => {
                    self.next();
                    KeyOutcome::Continue
                },
                KeyInput::Left => {
                    self.previous();
                    KeyOutcome::Continue
                },
                KeyInput::Up => {
                    self.previous_option();
                    KeyOutcome::Continue
                },
                KeyInput::Down => {
                    self.next_option();
                    KeyOutcome::Continue
                },
                KeyInput::Enter => {
                    self.handle_enter();
                    KeyOutcome::Continue
                },
                _ => KeyOutcome::Continue,
            }
        }
    }
}

/// Drops the last character of the buffer, if any.
fn push_pop(s: &mut String)
    ensures
        old(s)@.len() == 0 ==> final(s)@ == old(s)@,
        old(s)@.len() > 0 ==> final(s)@ == old(s)@.drop_last(),
{
    let _popped = crate::strutil::pop_char(s);
}

} // verus!

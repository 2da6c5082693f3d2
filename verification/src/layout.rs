//! What a node card holds: its ports and rows and where they sit, the ports of its upper
//! section by the kind of node, how a combined output slices its source, which component a
//! single-letter output names, a suffix row's label, and a text value cut to fit.
use crate::text::{chars_of, decimal, push_decimal, push_str, string_of};
use crate::thumbnails::same_text;
use vstd::prelude::*;
use vstd::string::StringExecFns;

verus! {

/// How many components a combined output slot slices from its source array.
pub open spec fn slice_width(name: Seq<char>) -> Option<usize> {
    if name == "xy"@ {
        Some(2)
    } else if name == "xyz"@ || name == "rgb"@ {
        Some(3)
    } else if name == "xyzw"@ || name == "rgba"@ {
        Some(4)
    } else {
        None
    }
}

/// Which components a combined output slot slices from its source array.
pub fn combined_slice(name: &str) -> (width: Option<usize>)
    ensures
        width == slice_width(name@),
{
    if same_text(name, "xy") {
        Some(2)
    } else if same_text(name, "xyz") || same_text(name, "rgb") {
        Some(3)
    } else if same_text(name, "xyzw") || same_text(name, "rgba") {
        Some(4)
    } else {
        None
    }
}

/// The position of the component a single-letter output names, as coordinates or as colour
/// channels.
pub open spec fn component_of(name: Seq<char>) -> Option<usize> {
    if name == "x"@ || name == "r"@ {
        Some(0)
    } else if name == "y"@ || name == "g"@ {
        Some(1)
    } else if name == "z"@ || name == "b"@ {
        Some(2)
    } else if name == "w"@ || name == "a"@ {
        Some(3)
    } else {
        None
    }
}

/// The position of the component a single-letter output names.
pub fn component_index(name: &str) -> (index: Option<usize>)
    ensures
        index == component_of(name@),
{
    if same_text(name, "x") || same_text(name, "r") {
        Some(0)
    } else if same_text(name, "y") || same_text(name, "g") {
        Some(1)
    } else if same_text(name, "z") || same_text(name, "b") {
        Some(2)
    } else if same_text(name, "w") || same_text(name, "a") {
        Some(3)
    } else {
        None
    }
}

/// A suffix row's label: the suffix itself, or `suffix` and the row's number from one when it
/// is empty.
pub open spec fn suffix_label(suffix: Seq<char>, index: nat) -> Seq<char> {
    if suffix.len() == 0 {
        "suffix"@ + decimal(index + 1)
    } else {
        suffix
    }
}

/// A suffix row's label, falling back to a numbered placeholder.
pub fn label_or_placeholder(suffix: &str, index: usize) -> (label: String)
    requires
        index < usize::MAX,
    ensures
        label@ == suffix_label(suffix@, index as nat),
{
    let chars = chars_of(suffix);
    if chars.len() == 0 {
        let mut label = String::from_str("suffix");
        push_decimal(&mut label, index as u128 + 1);
        label
    } else {
        String::from_str(suffix)
    }
}

/// A text value as a card shows it inline: nothing for empty text, the text itself up to
/// fourteen characters, and otherwise its first twelve characters and an ellipsis.
pub open spec fn inline_text(text: Seq<char>) -> Option<Seq<char>> {
    if text.len() == 0 {
        None
    } else if text.len() > 14 {
        Some(text.take(12) + "..."@)
    } else {
        Some(text)
    }
}

/// A text value as a card shows it inline.
pub fn inline_string_value(text: &str) -> (shown: Option<String>)
    ensures
        match inline_text(text@) {
            Some(expected) => shown matches Some(s) && s@ == expected,
            None => shown is None,
        },
{
    let chars = chars_of(text);
    if chars.len() == 0 {
        None
    } else if chars.len() > 14 {
        let mut shown = string_of(&chars, 0, 12);
        push_str(&mut shown, "...");
        assert(chars@.subrange(0, 12) =~= text@.take(12));
        Some(shown)
    } else {
        Some(String::from_str(text))
    }
}

/// What a wire carries, which decides its color and what it may connect to.
#[derive(Clone, Copy, PartialEq, Eq, Debug, Structural)]
pub enum WireKind {
    Image,
    Mask,
    Number,
    Path,
    Text,
    Bool,
    Numeric,
    Vector2,
    Vector3,
    Vector4,
    Color,
    Value,
}

/// What a card reads of one parameter of its definition: its name and label, the wire it
/// takes, whether it is an enum (edited in the inspector only), whether it is visible now,
/// whether it is only a port, whether the node works it out, and whether it has no port.
#[derive(Clone, Debug)]
pub struct CardParam {
    pub name: String,
    pub label: String,
    pub wire: WireKind,
    pub is_enum: bool,
    pub visible: bool,
    pub port_only: bool,
    pub readonly: bool,
    pub no_port: bool,
}

/// Where on a card a port sits: on a row of the port section, of the parameter body or of
/// the output slots, or in the header.
#[derive(Clone, Copy, PartialEq, Eq, Debug, Structural)]
pub enum PortPlace {
    Section(usize),
    Body(usize),
    Slot(usize),
    Header,
}

/// One connection point of a card: its handle, its label, its wire, whether it is on the
/// right edge, and where it sits.
#[derive(Clone, Debug)]
pub struct PortPlan {
    pub handle: String,
    pub label: String,
    pub wire: WireKind,
    pub output: bool,
    pub place: PortPlace,
}

/// A port plan as plain values.
pub open spec fn plan_view(plan: PortPlan) -> (Seq<char>, Seq<char>, WireKind, bool, PortPlace) {
    (plan.handle@, plan.label@, plan.wire, plan.output, plan.place)
}

/// Section ports as plain values: handle, label and wire.
pub open spec fn section_views(ports: Seq<(String, String, WireKind)>) -> Seq<(Seq<char>, Seq<char>, WireKind)> {
    ports.map_values(|port: (String, String, WireKind)| (port.0@, port.1@, port.2))
}

/// The ports of the first `count` rows of the port section: on each, the input of that row on
/// the left, then the output on the right, where there are such.
pub open spec fn section_rows(
    inputs: Seq<(Seq<char>, Seq<char>, WireKind)>,
    outputs: Seq<(Seq<char>, Seq<char>, WireKind)>,
    count: int,
) -> Seq<(Seq<char>, Seq<char>, WireKind, bool, PortPlace)>
    decreases count,
{
    if count <= 0 {
        Seq::empty()
    } else {
        let row = count - 1;
        section_rows(inputs, outputs, row) + (if row < inputs.len() {
            seq![(inputs[row].0, inputs[row].1, inputs[row].2, false, PortPlace::Section(row as usize))]
        } else {
            Seq::empty()
        }) + (if row < outputs.len() {
            seq![(outputs[row].0, outputs[row].1, outputs[row].2, true, PortPlace::Section(row as usize))]
        } else {
            Seq::empty()
        })
    }
}

/// Whether a parameter shows on the card at all: not an enum, and visible.
pub open spec fn carded(param: CardParam) -> bool {
    !param.is_enum && param.visible
}

/// The parameters among the first `count` that the card shows, in order: those in the body,
/// or those among the output slots.
pub open spec fn shown_params(params: Seq<CardParam>, slots: bool, count: int) -> Seq<CardParam>
    decreases count,
{
    if count <= 0 {
        Seq::empty()
    } else if carded(params[count - 1]) && params[count - 1].port_only == slots {
        shown_params(params, slots, count - 1).push(params[count - 1])
    } else {
        shown_params(params, slots, count - 1)
    }
}

/// The handle of a parameter's port.
pub open spec fn param_handle(name: Seq<char>) -> Seq<char> {
    "param:"@ + name
}

/// The ports of the first `count` body parameters: a computed one is an output, a writable
/// one an input unless it has no port.
pub open spec fn body_ports(body: Seq<CardParam>, count: int) -> Seq<(Seq<char>, Seq<char>, WireKind, bool, PortPlace)>
    decreases count,
{
    if count <= 0 {
        Seq::empty()
    } else {
        let param = body[count - 1];
        let place = PortPlace::Body((count - 1) as usize);
        body_ports(body, count - 1) + if param.readonly {
            seq![(param_handle(param.name@), param.label@, param.wire, true, place)]
        } else if !param.no_port {
            seq![(param_handle(param.name@), param.label@, param.wire, false, place)]
        } else {
            Seq::empty()
        }
    }
}

/// The ports of the first `count` output slots, each an output.
pub open spec fn slot_ports(slots: Seq<CardParam>, count: int) -> Seq<(Seq<char>, Seq<char>, WireKind, bool, PortPlace)>
    decreases count,
{
    if count <= 0 {
        Seq::empty()
    } else {
        let param = slots[count - 1];
        slot_ports(slots, count - 1).push(
            (param_handle(param.name@), param.label@, param.wire, true, PortPlace::Slot((count - 1) as usize)),
        )
    }
}

/// Whether a card can be bypassed: it has image inputs and outputs both.
pub open spec fn actionable(inputs: Seq<(Seq<char>, Seq<char>, WireKind)>, outputs: Seq<(Seq<char>, Seq<char>, WireKind)>) -> bool {
    inputs.len() > 0 && outputs.len() > 0
}

/// Every port of a card, in the order it is laid out: the port section (one row per larger
/// side, none when there are no image ports), the body parameters, the output slots, and the
/// `Enabled` port of a card that can be bypassed.
pub open spec fn card_ports_spec(
    inputs: Seq<(Seq<char>, Seq<char>, WireKind)>,
    outputs: Seq<(Seq<char>, Seq<char>, WireKind)>,
    params: Seq<CardParam>,
) -> Seq<(Seq<char>, Seq<char>, WireKind, bool, PortPlace)> {
    let rows = if inputs.len() == 0 && outputs.len() == 0 {
        0
    } else if inputs.len() >= outputs.len() {
        inputs.len() as int
    } else {
        outputs.len() as int
    };
    let body = shown_params(params, false, params.len() as int);
    let slots = shown_params(params, true, params.len() as int);
    section_rows(inputs, outputs, rows) + body_ports(body, body.len() as int) + slot_ports(slots, slots.len() as int)
        + if actionable(inputs, outputs) {
        seq![("param:_enabled"@, "Enabled"@, WireKind::Bool, false, PortPlace::Header)]
    } else {
        Seq::empty()
    }
}

/// The handle of the port a card that can be bypassed takes its bypass wire on.
pub open spec fn enabled_handle() -> Seq<char> {
    "param:_enabled"@
}

proof fn lemma_handle_names(name: Seq<char>)
    ensures
        param_handle(name) == enabled_handle() ==> name == "_enabled"@,
{
    reveal_strlit("param:_enabled");
    reveal_strlit("param:");
    reveal_strlit("_enabled");
    assert("param:_enabled"@ =~= "param:"@ + "_enabled"@);
    if param_handle(name) == enabled_handle() {
        assert(("param:"@ + name).skip(6) =~= name);
        assert(("param:"@ + "_enabled"@).skip(6) =~= "_enabled"@);
    }
}

proof fn lemma_section_handles(inputs: Seq<SectionView>, outputs: Seq<SectionView>, count: int)
    requires
        forall|i: int| 0 <= i < inputs.len() ==> (#[trigger] inputs[i]).0 != enabled_handle(),
        forall|i: int| 0 <= i < outputs.len() ==> (#[trigger] outputs[i]).0 != enabled_handle(),
    ensures
        forall|k: int| 0 <= k < section_rows(inputs, outputs, count).len() ==> (#[trigger] section_rows(
            inputs,
            outputs,
            count,
        )[k]).0 != enabled_handle(),
        forall|k: int| 0 <= k < section_rows(inputs, outputs, count).len() ==> (#[trigger] section_rows(
            inputs,
            outputs,
            count,
        )[k]).4 != PortPlace::Header,
    decreases count,
{
    if count > 0 {
        lemma_section_handles(inputs, outputs, count - 1);
    }
}

proof fn lemma_shown_names(params: Seq<CardParam>, slots: bool, count: int)
    requires
        count <= params.len(),
        forall|i: int| 0 <= i < params.len() ==> (#[trigger] params[i]).name@ != "_enabled"@,
    ensures
        forall|k: int| 0 <= k < shown_params(params, slots, count).len() ==> (#[trigger] shown_params(
            params,
            slots,
            count,
        )[k]).name@ != "_enabled"@,
    decreases count,
{
    if count > 0 {
        lemma_shown_names(params, slots, count - 1);
    }
}

proof fn lemma_body_handles(body: Seq<CardParam>, count: int)
    requires
        count <= body.len(),
        forall|i: int| 0 <= i < body.len() ==> (#[trigger] body[i]).name@ != "_enabled"@,
    ensures
        forall|k: int| 0 <= k < body_ports(body, count).len() ==> (#[trigger] body_ports(body, count)[k]).0
            != enabled_handle() && body_ports(body, count)[k].4 != PortPlace::Header,
    decreases count,
{
    if count > 0 {
        lemma_body_handles(body, count - 1);
        lemma_handle_names(body[count - 1].name@);
    }
}

proof fn lemma_slot_handles(slots: Seq<CardParam>, count: int)
    requires
        count <= slots.len(),
        forall|i: int| 0 <= i < slots.len() ==> (#[trigger] slots[i]).name@ != "_enabled"@,
    ensures
        forall|k: int| 0 <= k < slot_ports(slots, count).len() ==> (#[trigger] slot_ports(slots, count)[k]).0
            != enabled_handle() && slot_ports(slots, count)[k].4 != PortPlace::Header,
    decreases count,
{
    if count > 0 {
        lemma_slot_handles(slots, count - 1);
        lemma_handle_names(slots[count - 1].name@);
    }
}

/// A card carries the `Enabled` port exactly when it can be bypassed, that is when it has image
/// inputs and outputs both; it is then the last port, in the header. So the bypass tick, which
/// only such a card draws, always sits on a card with the port. This holds where no parameter
/// and no section port already goes by that name.
pub proof fn lemma_bypass_port_exactly_when_bypassable(
    inputs: Seq<SectionView>,
    outputs: Seq<SectionView>,
    params: Seq<CardParam>,
    enabled_wired: bool,
    is_process: bool,
)
    requires
        forall|i: int| 0 <= i < params.len() ==> (#[trigger] params[i]).name@ != "_enabled"@,
        forall|i: int| 0 <= i < inputs.len() ==> (#[trigger] inputs[i]).0 != enabled_handle(),
        forall|i: int| 0 <= i < outputs.len() ==> (#[trigger] outputs[i]).0 != enabled_handle(),
    ensures
        (exists|k: int|
            0 <= k < card_ports_spec(inputs, outputs, params).len() && (#[trigger] card_ports_spec(
                inputs,
                outputs,
                params,
            )[k]).0 == enabled_handle()) <==> actionable(inputs, outputs),
        (exists|k: int|
            0 <= k < card_ports_spec(inputs, outputs, params).len() && (#[trigger] card_ports_spec(
                inputs,
                outputs,
                params,
            )[k]).4 == PortPlace::Header) <==> actionable(inputs, outputs),
        actionable(inputs, outputs) ==> card_ports_spec(inputs, outputs, params).last() == (
            enabled_handle(),
            "Enabled"@,
            WireKind::Bool,
            false,
            PortPlace::Header,
        ),
        actionable(inputs, outputs) && !enabled_wired && is_process ==> exists|k: int|
            0 <= k < card_ports_spec(inputs, outputs, params).len() && (#[trigger] card_ports_spec(
                inputs,
                outputs,
                params,
            )[k]).0 == enabled_handle(),
{
    let rows = if inputs.len() == 0 && outputs.len() == 0 {
        0
    } else if inputs.len() >= outputs.len() {
        inputs.len() as int
    } else {
        outputs.len() as int
    };
    let body = shown_params(params, false, params.len() as int);
    let slots = shown_params(params, true, params.len() as int);
    lemma_section_handles(inputs, outputs, rows);
    lemma_shown_names(params, false, params.len() as int);
    lemma_shown_names(params, true, params.len() as int);
    lemma_body_handles(body, body.len() as int);
    lemma_slot_handles(slots, slots.len() as int);
    let front = section_rows(inputs, outputs, rows) + body_ports(body, body.len() as int) + slot_ports(
        slots,
        slots.len() as int,
    );
    let all = card_ports_spec(inputs, outputs, params);
    assert forall|k: int| 0 <= k < front.len() implies (#[trigger] front[k]).0 != enabled_handle() && front[k].4
        != PortPlace::Header by {
        let a = section_rows(inputs, outputs, rows);
        let b = body_ports(body, body.len() as int);
        if k < a.len() {
            assert(front[k] == a[k]);
        } else if k < a.len() + b.len() {
            assert(front[k] == b[k - a.len()]);
        } else {
            assert(front[k] == slot_ports(slots, slots.len() as int)[k - a.len() - b.len()]);
        }
    }
    if actionable(inputs, outputs) {
        let last = all.len() - 1;
        assert(all[last] == (enabled_handle(), "Enabled"@, WireKind::Bool, false, PortPlace::Header));
    } else {
        assert(all =~= front);
    }
    assert forall|k: int| 0 <= k < all.len() && k < front.len() implies all[k] == front[k] by {}
}

fn push_port(ports: &mut Vec<PortPlan>, handle: String, label: String, wire: WireKind, output: bool, place: PortPlace)
    ensures
        final(ports)@.map_values(|plan: PortPlan| plan_view(plan)) == old(ports)@.map_values(
            |plan: PortPlan| plan_view(plan),
        ).push((handle@, label@, wire, output, place)),
{
    let ghost before = ports@.map_values(|plan: PortPlan| plan_view(plan));
    ports.push(PortPlan { handle, label, wire, output, place });
    assert(ports@.map_values(|plan: PortPlan| plan_view(plan)) =~= before.push((handle@, label@, wire, output, place)));
}

fn handle_of(name: &String) -> (handle: String)
    ensures
        handle@ == param_handle(name@),
{
    let mut handle = String::from_str("param:");
    push_str(&mut handle, name.as_str());
    handle
}

fn copy_param(param: &CardParam) -> (copy: CardParam)
    ensures
        copy == *param,
{
    CardParam {
        name: param.name.clone(),
        label: param.label.clone(),
        wire: param.wire,
        is_enum: param.is_enum,
        visible: param.visible,
        port_only: param.port_only,
        readonly: param.readonly,
        no_port: param.no_port,
    }
}

fn shown(params: &[CardParam], slots: bool) -> (list: Vec<CardParam>)
    ensures
        list@ == shown_params(params@, slots, params@.len() as int),
{
    let mut list: Vec<CardParam> = Vec::new();
    let mut index: usize = 0;
    while index < params.len()
        invariant
            index <= params@.len(),
            list@ == shown_params(params@, slots, index as int),
        decreases params@.len() - index,
    {
        let param = &params[index];
        if !param.is_enum && param.visible && param.port_only == slots {
            list.push(copy_param(param));
        }
        index = index + 1;
    }
    list
}

/// The ports a card has and where they sit, and whether it draws the bypass tick: a card with
/// image inputs and outputs can be bypassed, and a Process node whose bypass port is not wired
/// draws the tick by hand.
pub fn card_ports(
    inputs: &[(String, String, WireKind)],
    outputs: &[(String, String, WireKind)],
    params: &[CardParam],
    enabled_wired: bool,
    is_process: bool,
) -> (plan: (Vec<PortPlan>, bool))
    ensures
        plan.0@.map_values(|port: PortPlan| plan_view(port)) == card_ports_spec(
            section_views(inputs@),
            section_views(outputs@),
            params@,
        ),
        plan.1 == (inputs@.len() > 0 && outputs@.len() > 0 && !enabled_wired && is_process),
{
    let ghost ins = section_views(inputs@);
    let ghost outs = section_views(outputs@);
    let mut ports: Vec<PortPlan> = Vec::new();
    let rows: usize = if inputs.len() == 0 && outputs.len() == 0 {
        0
    } else if inputs.len() >= outputs.len() {
        inputs.len()
    } else {
        outputs.len()
    };
    let mut row: usize = 0;
    assert(ports@.map_values(|port: PortPlan| plan_view(port)) =~= section_rows(ins, outs, 0));
    while row < rows
        invariant
            row <= rows,
            rows <= inputs@.len() || rows <= outputs@.len(),
            rows == inputs@.len() || rows == outputs@.len() || rows == 0,
            ins == section_views(inputs@),
            outs == section_views(outputs@),
            ports@.map_values(|port: PortPlan| plan_view(port)) == section_rows(ins, outs, row as int),
        decreases rows - row,
    {
        let ghost before = ports@.map_values(|port: PortPlan| plan_view(port));
        if row < inputs.len() {
            let (handle, label, wire) = &inputs[row];
            push_port(&mut ports, handle.clone(), label.clone(), *wire, false, PortPlace::Section(row));
        }
        let ghost middle = ports@.map_values(|port: PortPlan| plan_view(port));
        if row < outputs.len() {
            let (handle, label, wire) = &outputs[row];
            push_port(&mut ports, handle.clone(), label.clone(), *wire, true, PortPlace::Section(row));
        }
        proof {
            let left = if (row as int) < ins.len() {
                seq![(ins[row as int].0, ins[row as int].1, ins[row as int].2, false, PortPlace::Section(row))]
            } else {
                Seq::empty()
            };
            let right = if (row as int) < outs.len() {
                seq![(outs[row as int].0, outs[row as int].1, outs[row as int].2, true, PortPlace::Section(row))]
            } else {
                Seq::empty()
            };
            assert(middle =~= before + left);
            assert(ports@.map_values(|port: PortPlan| plan_view(port)) =~= before + left + right);
        }
        row = row + 1;
    }
    let body = shown(params, false);
    let mut b: usize = 0;
    let ghost after_section = ports@.map_values(|port: PortPlan| plan_view(port));
    assert(after_section + body_ports(body@, 0) =~= after_section);
    while b < body.len()
        invariant
            b <= body@.len(),
            ports@.map_values(|port: PortPlan| plan_view(port)) == after_section + body_ports(body@, b as int),
        decreases body@.len() - b,
    {
        let ghost before = ports@.map_values(|port: PortPlan| plan_view(port));
        let param = &body[b];
        if param.readonly {
            push_port(&mut ports, handle_of(&param.name), param.label.clone(), param.wire, true, PortPlace::Body(b));
        } else if !param.no_port {
            push_port(&mut ports, handle_of(&param.name), param.label.clone(), param.wire, false, PortPlace::Body(b));
        }
        proof {
            assert(ports@.map_values(|port: PortPlan| plan_view(port)) =~= after_section + body_ports(
                body@,
                b + 1,
            ));
        }
        b = b + 1;
    }
    let slots = shown(params, true);
    let mut k: usize = 0;
    let ghost after_body = ports@.map_values(|port: PortPlan| plan_view(port));
    assert(after_body + slot_ports(slots@, 0) =~= after_body);
    while k < slots.len()
        invariant
            k <= slots@.len(),
            ports@.map_values(|port: PortPlan| plan_view(port)) == after_body + slot_ports(slots@, k as int),
        decreases slots@.len() - k,
    {
        let param = &slots[k];
        push_port(&mut ports, handle_of(&param.name), param.label.clone(), param.wire, true, PortPlace::Slot(k));
        proof {
            assert(ports@.map_values(|port: PortPlan| plan_view(port)) =~= after_body + slot_ports(slots@, k + 1));
        }
        k = k + 1;
    }
    let ghost after_slots = ports@.map_values(|port: PortPlan| plan_view(port));
    let actionable_card = inputs.len() > 0 && outputs.len() > 0;
    if actionable_card {
        push_port(
            &mut ports,
            String::from_str("param:_enabled"),
            String::from_str("Enabled"),
            WireKind::Bool,
            false,
            PortPlace::Header,
        );
    }
    proof {
        if !actionable_card {
            assert(after_slots + Seq::empty() =~= after_slots);
        }
    }
    (ports, actionable_card && !enabled_wired && is_process)
}

/// What kind of node a card is for, as far as its port section goes.
#[derive(Clone, Copy, PartialEq, Eq, Debug, Structural)]
pub enum CardKind {
    Input,
    ImageOutput,
    TextOutput,
    FlipbookOutput,
    FolderPath,
    Group,
    Comment,
    /// The Process As Set node, whose ports follow its suffixes.
    ProcessAsSet,
    /// Any other node, whose ports its definition (or the node itself) names.
    Defined,
}

/// A port of the section as plain values.
pub type SectionView = (Seq<char>, Seq<char>, WireKind);

/// The text ports of a Text Output's first `count` slots: `txo:` and the slot, labelled
/// `Text` and the slot's number from one.
pub open spec fn text_slot_ports(slots: Seq<Seq<char>>, count: int) -> Seq<SectionView>
    decreases count,
{
    if count <= 0 {
        Seq::empty()
    } else {
        text_slot_ports(slots, count - 1).push(
            ("txo:"@ + slots[count - 1], "Text "@ + decimal(count as nat), WireKind::Value),
        )
    }
}

/// The ports of the first `count` suffixes of a Process As Set node, on the side `prefix`
/// names (`param` for the inputs, `out` for the outputs), each labelled by its suffix.
pub open spec fn suffix_ports(suffixes: Seq<Seq<char>>, prefix: Seq<char>, wire: WireKind, count: int) -> Seq<SectionView>
    decreases count,
{
    if count <= 0 {
        Seq::empty()
    } else {
        suffix_ports(suffixes, prefix, wire, count - 1).push(
            (
                prefix + ":suffix_"@ + decimal((count - 1) as nat),
                suffix_label(suffixes[count - 1], (count - 1) as nat),
                wire,
            ),
        )
    }
}

/// The first `count` ports a definition names, with `prefix` and a colon before each name.
pub open spec fn named_ports(ports: Seq<SectionView>, prefix: Seq<char>, count: int) -> Seq<SectionView>
    decreases count,
{
    if count <= 0 {
        Seq::empty()
    } else {
        named_ports(ports, prefix, count - 1).push((prefix + ":"@ + ports[count - 1].0, ports[count - 1].1, ports[count - 1].2))
    }
}

/// The ports drawn in the upper section of a card, before parameters, inputs then outputs.
/// A defined node shows no more image inputs than its channel count, where it has one.
pub open spec fn section_ports_of(
    kind: CardKind,
    slots: Seq<Seq<char>>,
    suffixes: Seq<Seq<char>>,
    inputs: Seq<SectionView>,
    outputs: Seq<SectionView>,
    channel_limit: Option<usize>,
) -> (Seq<SectionView>, Seq<SectionView>) {
    let image_in: SectionView = ("in:input"@, "Image"@, WireKind::Image);
    match kind {
        CardKind::Input => (Seq::empty(), seq![("out:output"@, "Image"@, WireKind::Image)]),
        CardKind::ImageOutput => (seq![image_in, ("in:folder"@, "Folder"@, WireKind::Path)], Seq::empty()),
        CardKind::TextOutput => (seq![image_in] + text_slot_ports(slots, slots.len() as int), Seq::empty()),
        CardKind::FlipbookOutput => (seq![image_in, ("param:bgColor"@, "BG Color"@, WireKind::Color)], Seq::empty()),
        CardKind::FolderPath => (Seq::empty(), seq![("out:output"@, "Path"@, WireKind::Path)]),
        CardKind::Group => (Seq::empty(), Seq::empty()),
        CardKind::Comment => (Seq::empty(), Seq::empty()),
        CardKind::ProcessAsSet => (
            seq![image_in, ("param:prefix"@, "Prefix"@, WireKind::Text)] + suffix_ports(
                suffixes,
                "param"@,
                WireKind::Text,
                suffixes.len() as int,
            ),
            suffix_ports(suffixes, "out"@, WireKind::Image, suffixes.len() as int),
        ),
        CardKind::Defined => {
            let shown = match channel_limit {
                Some(limit) => if (limit as int) < inputs.len() {
                    limit as int
                } else {
                    inputs.len() as int
                },
                None => inputs.len() as int,
            };
            (named_ports(inputs, "in"@, shown), named_ports(outputs, "out"@, outputs.len() as int))
        },
    }
}

fn section_port(handle: &str, label: &str, wire: WireKind) -> (port: (String, String, WireKind))
    ensures
        port.0@ == handle@ && port.1@ == label@ && port.2 == wire,
{
    (String::from_str(handle), String::from_str(label), wire)
}

fn push_section(ports: &mut Vec<(String, String, WireKind)>, port: (String, String, WireKind))
    ensures
        section_views(final(ports)@) == section_views(old(ports)@).push((port.0@, port.1@, port.2)),
{
    let ghost before = section_views(ports@);
    ports.push(port);
    assert(section_views(ports@) =~= before.push((port.0@, port.1@, port.2)));
}

fn push_suffix_ports(ports: &mut Vec<(String, String, WireKind)>, suffixes: &[String], prefix: &str, wire: WireKind)
    ensures
        section_views(final(ports)@) == section_views(old(ports)@) + suffix_ports(
            suffixes@.map_values(|suffix: String| suffix@),
            prefix@,
            wire,
            suffixes@.len() as int,
        ),
{
    let ghost start = section_views(ports@);
    let ghost views = suffixes@.map_values(|suffix: String| suffix@);
    let mut index: usize = 0;
    assert(start + suffix_ports(views, prefix@, wire, 0) =~= start);
    while index < suffixes.len()
        invariant
            index <= suffixes@.len(),
            views == suffixes@.map_values(|suffix: String| suffix@),
            section_views(ports@) == start + suffix_ports(views, prefix@, wire, index as int),
        decreases suffixes@.len() - index,
    {
        let mut handle = String::from_str(prefix);
        push_str(&mut handle, ":suffix_");
        push_decimal(&mut handle, index as u128);
        let label = label_or_placeholder(suffixes[index].as_str(), index);
        push_section(ports, (handle, label, wire));
        proof {
            assert(views[index as int] == suffixes@[index as int]@);
            assert(section_views(ports@) =~= start + suffix_ports(views, prefix@, wire, index + 1));
        }
        index = index + 1;
    }
}

fn push_named_ports(ports: &mut Vec<(String, String, WireKind)>, named: &[(String, String, WireKind)], prefix: &str, count: usize)
    requires
        count <= named@.len(),
    ensures
        section_views(final(ports)@) == section_views(old(ports)@) + named_ports(section_views(named@), prefix@, count as int),
{
    let ghost start = section_views(ports@);
    let mut index: usize = 0;
    assert(start + named_ports(section_views(named@), prefix@, 0) =~= start);
    while index < count
        invariant
            index <= count <= named@.len(),
            section_views(ports@) == start + named_ports(section_views(named@), prefix@, index as int),
        decreases count - index,
    {
        let (name, label, wire) = &named[index];
        let mut handle = String::from_str(prefix);
        push_str(&mut handle, ":");
        push_str(&mut handle, name.as_str());
        push_section(ports, (handle, label.clone(), *wire));
        proof {
            assert(section_views(ports@) =~= start + named_ports(section_views(named@), prefix@, index + 1));
        }
        index = index + 1;
    }
}

/// The ports drawn in the upper section of a card, before parameters: the image input, text
/// slot, suffix and definition ports its kind calls for, as handle, label and wire.
pub fn section_ports(
    kind: CardKind,
    slots: &[String],
    suffixes: &[String],
    inputs: &[(String, String, WireKind)],
    outputs: &[(String, String, WireKind)],
    channel_limit: Option<usize>,
) -> (ports: (Vec<(String, String, WireKind)>, Vec<(String, String, WireKind)>))
    ensures
        (section_views(ports.0@), section_views(ports.1@)) == section_ports_of(
            kind,
            slots@.map_values(|slot: String| slot@),
            suffixes@.map_values(|suffix: String| suffix@),
            section_views(inputs@),
            section_views(outputs@),
            channel_limit,
        ),
{
    let mut ins: Vec<(String, String, WireKind)> = Vec::new();
    let mut outs: Vec<(String, String, WireKind)> = Vec::new();
    let ghost empty = section_views(ins@);
    assert(empty =~= Seq::<SectionView>::empty());
    match kind {
        CardKind::Input => {
            push_section(&mut outs, section_port("out:output", "Image", WireKind::Image));
        },
        CardKind::ImageOutput => {
            push_section(&mut ins, section_port("in:input", "Image", WireKind::Image));
            push_section(&mut ins, section_port("in:folder", "Folder", WireKind::Path));
        },
        CardKind::TextOutput => {
            push_section(&mut ins, section_port("in:input", "Image", WireKind::Image));
            let ghost first = section_views(ins@);
            let ghost views = slots@.map_values(|slot: String| slot@);
            let mut index: usize = 0;
            assert(first + text_slot_ports(views, 0) =~= first);
            while index < slots.len()
                invariant
                    index <= slots@.len(),
                    views == slots@.map_values(|slot: String| slot@),
                    section_views(ins@) == first + text_slot_ports(views, index as int),
                decreases slots@.len() - index,
            {
                let mut handle = String::from_str("txo:");
                push_str(&mut handle, slots[index].as_str());
                let mut label = String::from_str("Text ");
                push_decimal(&mut label, index as u128 + 1);
                push_section(&mut ins, (handle, label, WireKind::Value));
                proof {
                    assert(views[index as int] == slots@[index as int]@);
                    assert(section_views(ins@) =~= first + text_slot_ports(views, index + 1));
                }
                index = index + 1;
            }
        },
        CardKind::FlipbookOutput => {
            push_section(&mut ins, section_port("in:input", "Image", WireKind::Image));
            push_section(&mut ins, section_port("param:bgColor", "BG Color", WireKind::Color));
        },
        CardKind::FolderPath => {
            push_section(&mut outs, section_port("out:output", "Path", WireKind::Path));
        },
        CardKind::Group => {},
        CardKind::Comment => {},
        CardKind::ProcessAsSet => {
            push_section(&mut ins, section_port("in:input", "Image", WireKind::Image));
            push_section(&mut ins, section_port("param:prefix", "Prefix", WireKind::Text));
            push_suffix_ports(&mut ins, suffixes, "param", WireKind::Text);
            push_suffix_ports(&mut outs, suffixes, "out", WireKind::Image);
        },
        CardKind::Defined => {
            let shown = match channel_limit {
                Some(limit) => if limit < inputs.len() {
                    limit
                } else {
                    inputs.len()
                },
                None => inputs.len(),
            };
            push_named_ports(&mut ins, inputs, "in", shown);
            push_named_ports(&mut outs, outputs, "out", outputs.len());
        },
    }
    proof {
        let expected = section_ports_of(
            kind,
            slots@.map_values(|slot: String| slot@),
            suffixes@.map_values(|suffix: String| suffix@),
            section_views(inputs@),
            section_views(outputs@),
            channel_limit,
        );
        assert(section_views(ins@) =~= expected.0);
        assert(section_views(outs@) =~= expected.1);
    }
    (ins, outs)
}

/// The kind of one row of a card, with the labels it shows: a row of the port section with the
/// labels of its input and output, a parameter of the body (computed or writable), or an
/// output slot.
#[derive(Clone, Debug)]
pub enum RowPlan {
    PortLabel { left: Option<String>, right: Option<String> },
    Param { name: String, label: String, computed: bool },
    Slot { name: String, label: String },
}

/// A row plan as plain values: its kind (0 for the port section, 1 for the body, 2 for a slot),
/// its two texts, and whether it is computed. A port row's texts are its labels, absent ones
/// left empty; a parameter's are its name and label.
pub open spec fn row_view(row: RowPlan) -> (nat, Option<Seq<char>>, Option<Seq<char>>, bool) {
    match row {
        RowPlan::PortLabel { left, right } => (
            0,
            match left {
                Some(l) => Some(l@),
                None => None,
            },
            match right {
                Some(r) => Some(r@),
                None => None,
            },
            false,
        ),
        RowPlan::Param { name, label, computed } => (1, Some(name@), Some(label@), computed),
        RowPlan::Slot { name, label } => (2, Some(name@), Some(label@), false),
    }
}

/// The rows of the first `count` rows of the port section.
pub open spec fn section_label_rows(inputs: Seq<SectionView>, outputs: Seq<SectionView>, count: int) -> Seq<
    (nat, Option<Seq<char>>, Option<Seq<char>>, bool),
>
    decreases count,
{
    if count <= 0 {
        Seq::empty()
    } else {
        let row = count - 1;
        section_label_rows(inputs, outputs, row).push(
            (
                0,
                if row < inputs.len() {
                    Some(inputs[row].1)
                } else {
                    None
                },
                if row < outputs.len() {
                    Some(outputs[row].1)
                } else {
                    None
                },
                false,
            ),
        )
    }
}

/// The rows of the first `count` parameters of `shown`, of the given kind.
pub open spec fn param_rows(shown: Seq<CardParam>, slots: bool, count: int) -> Seq<
    (nat, Option<Seq<char>>, Option<Seq<char>>, bool),
>
    decreases count,
{
    if count <= 0 {
        Seq::empty()
    } else {
        let param = shown[count - 1];
        param_rows(shown, slots, count - 1).push(
            if slots {
                (2nat, Some(param.name@), Some(param.label@), false)
            } else {
                (1nat, Some(param.name@), Some(param.label@), param.readonly)
            },
        )
    }
}

/// Every row of a card, in order: the rows of the port section, the body parameters, then the
/// output slots.
pub open spec fn card_rows_spec(inputs: Seq<SectionView>, outputs: Seq<SectionView>, params: Seq<CardParam>) -> Seq<
    (nat, Option<Seq<char>>, Option<Seq<char>>, bool),
> {
    let rows = if inputs.len() == 0 && outputs.len() == 0 {
        0
    } else if inputs.len() >= outputs.len() {
        inputs.len() as int
    } else {
        outputs.len() as int
    };
    let body = shown_params(params, false, params.len() as int);
    let slots = shown_params(params, true, params.len() as int);
    section_label_rows(inputs, outputs, rows) + param_rows(body, false, body.len() as int) + param_rows(
        slots,
        true,
        slots.len() as int,
    )
}

fn push_row(rows: &mut Vec<RowPlan>, row: RowPlan)
    ensures
        final(rows)@.map_values(|r: RowPlan| row_view(r)) == old(rows)@.map_values(|r: RowPlan| row_view(r)).push(
            row_view(row),
        ),
{
    let ghost before = rows@.map_values(|r: RowPlan| row_view(r));
    let ghost view = row_view(row);
    rows.push(row);
    assert(rows@.map_values(|r: RowPlan| row_view(r)) =~= before.push(view));
}

/// The rows of a card, in the order they are drawn.
pub fn card_rows(
    inputs: &[(String, String, WireKind)],
    outputs: &[(String, String, WireKind)],
    params: &[CardParam],
) -> (rows: Vec<RowPlan>)
    ensures
        rows@.map_values(|r: RowPlan| row_view(r)) == card_rows_spec(section_views(inputs@), section_views(outputs@), params@),
{
    let ghost ins = section_views(inputs@);
    let ghost outs = section_views(outputs@);
    let mut rows: Vec<RowPlan> = Vec::new();
    let count: usize = if inputs.len() == 0 && outputs.len() == 0 {
        0
    } else if inputs.len() >= outputs.len() {
        inputs.len()
    } else {
        outputs.len()
    };
    let mut row: usize = 0;
    assert(rows@.map_values(|r: RowPlan| row_view(r)) =~= section_label_rows(ins, outs, 0));
    while row < count
        invariant
            row <= count,
            ins == section_views(inputs@),
            outs == section_views(outputs@),
            rows@.map_values(|r: RowPlan| row_view(r)) == section_label_rows(ins, outs, row as int),
        decreases count - row,
    {
        let left = if row < inputs.len() {
            Some(inputs[row].1.clone())
        } else {
            None
        };
        let right = if row < outputs.len() {
            Some(outputs[row].1.clone())
        } else {
            None
        };
        push_row(&mut rows, RowPlan::PortLabel { left, right });
        proof {
            assert(rows@.map_values(|r: RowPlan| row_view(r)) =~= section_label_rows(ins, outs, row + 1));
        }
        row = row + 1;
    }
    let ghost after_section = rows@.map_values(|r: RowPlan| row_view(r));
    let body = shown(params, false);
    let mut b: usize = 0;
    assert(after_section + param_rows(body@, false, 0) =~= after_section);
    while b < body.len()
        invariant
            b <= body@.len(),
            rows@.map_values(|r: RowPlan| row_view(r)) == after_section + param_rows(body@, false, b as int),
        decreases body@.len() - b,
    {
        let param = &body[b];
        push_row(&mut rows, RowPlan::Param { name: param.name.clone(), label: param.label.clone(), computed: param.readonly });
        proof {
            assert(rows@.map_values(|r: RowPlan| row_view(r)) =~= after_section + param_rows(body@, false, b + 1));
        }
        b = b + 1;
    }
    let ghost after_body = rows@.map_values(|r: RowPlan| row_view(r));
    let slots = shown(params, true);
    let mut k: usize = 0;
    assert(after_body + param_rows(slots@, true, 0) =~= after_body);
    while k < slots.len()
        invariant
            k <= slots@.len(),
            rows@.map_values(|r: RowPlan| row_view(r)) == after_body + param_rows(slots@, true, k as int),
        decreases slots@.len() - k,
    {
        let param = &slots[k];
        push_row(&mut rows, RowPlan::Slot { name: param.name.clone(), label: param.label.clone() });
        proof {
            assert(rows@.map_values(|r: RowPlan| row_view(r)) =~= after_body + param_rows(slots@, true, k + 1));
        }
        k = k + 1;
    }
    rows
}

} // verus!

//! What compositing a layer tree does, step by step.
//!
//! Layers composite bottom-up: groups isolate unless they pass through,
//! layer masks multiply their alpha, clipping layers are confined to the
//! alpha of the layer beneath them, and adjustment layers recolour what is
//! beneath them. A tree becomes a list of steps for a machine with a stack
//! of tile buffers, at whose bottom the result grows, and a stack of
//! remembered alphas.

use crate::blend::BlendMode;
use vstd::prelude::*;

verus! {

/// What a layer is.
#[derive(Debug)]
pub enum LayerKind {
    /// Layers, bottom to top.
    Group(Vec<Layer>),
    /// Pixels; `blank` when there are none in the tile at hand.
    Raster { blank: bool },
    /// A recolouring of what is beneath.
    Adjustment,
}

/// One layer of a tree, as far as its place in the composition goes.
#[derive(Debug)]
pub struct Layer {
    pub id: u64,
    pub visible: bool,
    /// Whether the layer is confined to the alpha of the one beneath it.
    pub clipping: bool,
    pub blend: BlendMode,
    /// Whether the opacity is at least one.
    pub opaque: bool,
    /// Whether there is a mask, in use or not.
    pub masked: bool,
    /// Whether there is a mask in use.
    pub mask_in_use: bool,
    pub kind: LayerKind,
}

/// One step of the machine.
#[derive(Debug, Clone, Copy, PartialEq, Eq, Structural)]
pub enum Step {
    /// Put a blank buffer on the stack.
    Open,
    /// Draw a raster layer's own pixels into the top buffer.
    Pixels(u64),
    /// Multiply the top buffer's alpha by a layer's mask.
    Mask(u64),
    /// Remember the top buffer's alpha.
    Remember,
    /// Recolour the top buffer by an adjustment layer, confined to the
    /// last remembered alpha or not.
    Adjust { layer: u64, confined: bool },
    /// Blend the top buffer onto the one beneath it, confined to the last
    /// remembered alpha, with a layer's own mode and opacities; drop it.
    BlendConfined(u64),
    /// Forget the last remembered alpha.
    Forget,
    /// Blend the top buffer onto the one beneath it with a mode and a
    /// layer's opacity, times its fill opacity if `fill`, and its mask if
    /// `masked`; drop it.
    Blend { layer: u64, mode: BlendMode, fill: bool, masked: bool },
}

/// The layers of a group; none for anything else.
pub open spec fn children_of(layer: Layer) -> Seq<Layer> {
    match layer.kind {
        LayerKind::Group(children) => children@,
        _ => Seq::empty(),
    }
}

/// The first layer from `j` on that is not clipping: where a run of
/// clipping layers ends.
pub open spec fn run_end(layers: Seq<Layer>, j: int) -> int
    decreases layers.len() - j,
{
    if 0 <= j < layers.len() && layers[j].clipping {
        run_end(layers, j + 1)
    } else {
        j
    }
}

/// Where the layers end that composite together with layer `i`: those
/// clipped to it. A clipping layer with nothing beneath stands alone.
pub open spec fn stack_end(layers: Seq<Layer>, i: int) -> int {
    if layers[i].clipping {
        i + 1
    } else {
        run_end(layers, i + 1)
    }
}

/// Whether a group composites straight into what is beneath it.
pub open spec fn passes_through(layer: Layer) -> bool {
    layer.blend is PassThrough && layer.opaque && !layer.masked
}

/// The steps that draw a layer by itself into the top buffer, with its
/// mask and without its opacity.
pub open spec fn drawn(layer: Layer) -> Seq<Step>
    decreases layer, 0int,
{
    let own = match layer.kind {
        LayerKind::Group(children) => steps_from(children@, 0),
        LayerKind::Raster { .. } => seq![Step::Pixels(layer.id)],
        LayerKind::Adjustment => Seq::empty(),
    };
    if layer.mask_in_use {
        own.push(Step::Mask(layer.id))
    } else {
        own
    }
}

/// The steps of a visible layer that nothing is clipped to.
pub open spec fn alone(layer: Layer) -> Seq<Step>
    decreases layer, 1int,
{
    match layer.kind {
        LayerKind::Group(children) => if passes_through(layer) {
            steps_from(children@, 0)
        } else {
            seq![Step::Open] + steps_from(children@, 0) + seq![
                Step::Blend {
                    layer: layer.id,
                    mode: if layer.blend is PassThrough {
                        BlendMode::Normal
                    } else {
                        layer.blend
                    },
                    fill: false,
                    masked: layer.mask_in_use,
                },
            ]
        },
        LayerKind::Raster { blank } => if blank {
            Seq::empty()
        } else {
            seq![Step::Open] + drawn(layer) + seq![
                Step::Blend { layer: layer.id, mode: layer.blend, fill: true, masked: false },
            ]
        },
        LayerKind::Adjustment => seq![Step::Adjust { layer: layer.id, confined: false }],
    }
}

/// The steps of the layers from `j` up to `end` clipped to the one whose
/// buffer is on top.
pub open spec fn clipped(layers: Seq<Layer>, j: int, end: int) -> Seq<Step>
    decreases layers, end - j,
{
    if j < 0 || j >= end || j >= layers.len() {
        Seq::empty()
    } else {
        let head = if !layers[j].visible {
            Seq::empty()
        } else if layers[j].kind is Adjustment {
            seq![Step::Adjust { layer: layers[j].id, confined: true }]
        } else {
            seq![Step::Open] + drawn(layers[j]) + seq![Step::BlendConfined(layers[j].id)]
        };
        head + clipped(layers, j + 1, end)
    }
}

/// The steps of sibling layers, bottom to top, from number `i` on.
pub open spec fn steps_from(layers: Seq<Layer>, i: int) -> Seq<Step>
    decreases layers, layers.len() - i,
{
    if i < 0 || i >= layers.len() {
        Seq::empty()
    } else {
        proof {
            lemma_run_end(layers, i + 1);
        }
        let layer = layers[i];
        let end = stack_end(layers, i);
        let head = if !layer.visible {
            Seq::empty()
        } else if end > i + 1 {
            // The base and what is clipped to it are built in isolation,
            // and the lot blends with the base's mode.
            seq![Step::Open] + drawn(layer) + seq![Step::Remember] + clipped(layers, i + 1, end)
                + seq![
                Step::Forget,
                Step::Blend {
                    layer: layer.id,
                    mode: layer.blend,
                    fill: true,
                    masked: layer.kind is Group && layer.mask_in_use,
                },
            ]
        } else {
            alone(layer)
        };
        head + steps_from(layers, end)
    }
}

/// A run of clipping layers ends among the layers.
pub proof fn lemma_run_end(layers: Seq<Layer>, j: int)
    requires
        0 <= j <= layers.len(),
    ensures
        j <= run_end(layers, j) <= layers.len(),
    decreases layers.len() - j,
{
    if j < layers.len() && layers[j].clipping {
        lemma_run_end(layers, j + 1);
    }
}

// ------------------------------------------------------------ planning

fn draw(layer: &Layer, out: &mut Vec<Step>)
    ensures
        final(out)@ == old(out)@ + drawn(*layer),
    decreases layer, 0int,
{
    let ghost start = out@;
    match &layer.kind {
        LayerKind::Group(children) => composite_layers(children, out),
        LayerKind::Raster { .. } => {
            out.push(Step::Pixels(layer.id));
            assert(out@ =~= start + seq![Step::Pixels(layer.id)]);
        },
        LayerKind::Adjustment => {
            assert(out@ =~= start + Seq::empty());
        },
    }
    if layer.mask_in_use {
        out.push(Step::Mask(layer.id));
    }
    assert(out@ =~= start + drawn(*layer));
}

fn composite_alone(layer: &Layer, out: &mut Vec<Step>)
    ensures
        final(out)@ == old(out)@ + alone(*layer),
    decreases layer, 1int,
{
    let ghost start = out@;
    match &layer.kind {
        LayerKind::Group(children) => {
            let pass: bool = matches!(layer.blend, BlendMode::PassThrough);
            if pass && layer.opaque && !layer.masked {
                composite_layers(children, out);
            } else {
                out.push(Step::Open);
                composite_layers(children, out);
                let mode = if pass {
                    BlendMode::Normal
                } else {
                    layer.blend
                };
                out.push(
                    Step::Blend { layer: layer.id, mode, fill: false, masked: layer.mask_in_use },
                );
            }
        },
        LayerKind::Raster { blank } => {
            // A layer with nothing in the tile is skipped entirely.
            if !*blank {
                out.push(Step::Open);
                draw(layer, out);
                out.push(
                    Step::Blend { layer: layer.id, mode: layer.blend, fill: true, masked: false },
                );
            }
        },
        LayerKind::Adjustment => {
            out.push(Step::Adjust { layer: layer.id, confined: false });
        },
    }
    assert(out@ =~= start + alone(*layer));
}

fn composite_clipped(layers: &Vec<Layer>, from: usize, end: usize, out: &mut Vec<Step>)
    requires
        from <= end <= layers@.len(),
    ensures
        final(out)@ == old(out)@ + clipped(layers@, from as int, end as int),
    decreases layers@, 0int,
{
    let ghost start = out@;
    let ghost goal = clipped(layers@, from as int, end as int);
    let mut j: usize = from;
    assert(out@ + clipped(layers@, j as int, end as int) =~= start + goal);
    while j < end
        invariant
            from <= j <= end <= layers@.len(),
            out@ + clipped(layers@, j as int, end as int) == start + goal,
        decreases end - j,
    {
        let layer = &layers[j];
        let ghost before = out@;
        let ghost rest = clipped(layers@, j + 1, end as int);
        if layer.visible {
            if let LayerKind::Adjustment = &layer.kind {
                out.push(Step::Adjust { layer: layer.id, confined: true });
                assert(out@ =~= before + seq![Step::Adjust { layer: layer.id, confined: true }]);
            } else {
                out.push(Step::Open);
                draw(layer, out);
                out.push(Step::BlendConfined(layer.id));
                assert(out@ =~= before + (seq![Step::Open] + drawn(*layer) + seq![
                    Step::BlendConfined(layer.id),
                ]));
            }
        } else {
            assert(out@ =~= before + Seq::empty());
        }
        assert(out@ + rest =~= before + clipped(layers@, j as int, end as int));
        j = j + 1;
    }
    assert(out@ =~= out@ + clipped(layers@, end as int, end as int));
}

/// Appends the steps of sibling layers, bottom to top.
pub fn composite_layers(layers: &Vec<Layer>, out: &mut Vec<Step>)
    ensures
        final(out)@ == old(out)@ + steps_from(layers@, 0),
    decreases layers@, 1int,
{
    let ghost start = out@;
    let ghost goal = steps_from(layers@, 0);
    let mut i: usize = 0;
    while i < layers.len()
        invariant
            i <= layers@.len(),
            out@ + steps_from(layers@, i as int) == start + goal,
        decreases layers@.len() - i,
    {
        let layer = &layers[i];
        let ghost before = out@;
        proof {
            lemma_run_end(layers@, i + 1);
        }
        // A base followed by layers clipped to it.
        let mut end: usize = i + 1;
        if !layer.clipping {
            while end < layers.len() && layers[end].clipping
                invariant
                    i < end <= layers@.len(),
                    run_end(layers@, i + 1) == run_end(layers@, end as int),
                decreases layers@.len() - end,
            {
                end = end + 1;
            }
        }
        assert(end == stack_end(layers@, i as int));
        let ghost rest = steps_from(layers@, end as int);
        if layer.visible {
            if end > i + 1 {
                out.push(Step::Open);
                draw(layer, out);
                out.push(Step::Remember);
                composite_clipped(layers, i + 1, end, out);
                out.push(Step::Forget);
                let masked: bool = matches!(&layer.kind, LayerKind::Group(_)) && layer.mask_in_use;
                out.push(
                    Step::Blend { layer: layer.id, mode: layer.blend, fill: true, masked },
                );
            } else {
                composite_alone(layer, out);
            }
        }
        assert(out@ + rest =~= before + steps_from(layers@, i as int));
        i = end;
    }
    assert(out@ =~= out@ + steps_from(layers@, i as int));
}

/// The steps that composite a tree, bottom to top.
pub fn plan(layers: &Vec<Layer>) -> (steps: Vec<Step>)
    ensures
        steps@ == steps_from(layers@, 0),
{
    let mut out: Vec<Step> = Vec::new();
    composite_layers(layers, &mut out);
    assert(out@ =~= steps_from(layers@, 0));
    out
}

// ------------------------------------------------------------ blending

/// How a buffer is blended onto another.
#[derive(Debug, Clone, Copy, PartialEq, Eq, Structural)]
pub enum BlendPath {
    /// The whole buffer at once, by the blender of separable modes.
    Span,
    /// Plain source-over.
    Over,
    /// Pixel by pixel.
    Pixels,
}

/// How a buffer is blended onto another: a separable mode without a mask
/// as a whole, an opaque normal one without a mask source-over, and
/// anything else pixel by pixel. `separable` says whether the blender of
/// separable modes takes the mode.
pub fn blend_path(mode: BlendMode, masked: bool, opaque: bool, separable: bool) -> (path: BlendPath)
    ensures
        path is Span <==> !masked && !(mode is Normal) && separable,
        path is Over <==> !masked && mode is Normal && opaque,
{
    let normal: bool = matches!(mode, BlendMode::Normal);
    if !masked && !normal && separable {
        BlendPath::Span
    } else if !masked && normal && opaque {
        BlendPath::Over
    } else {
        BlendPath::Pixels
    }
}

// ------------------------------------------------------------ the laws

/// How many buffers lie above the result, and how many alphas are
/// remembered.
pub struct Machine {
    pub buffers: nat,
    pub alphas: nat,
}

/// The machine after a step; nothing if it lacks what the step takes.
pub open spec fn after_step(m: Machine, step: Step) -> Option<Machine> {
    match step {
        Step::Open => Some(Machine { buffers: m.buffers + 1, ..m }),
        Step::Pixels(_) | Step::Mask(_) => if m.buffers >= 1 {
            Some(m)
        } else {
            None
        },
        Step::Remember => if m.buffers >= 1 {
            Some(Machine { alphas: m.alphas + 1, ..m })
        } else {
            None
        },
        Step::Adjust { confined, .. } => if !confined || m.alphas >= 1 {
            Some(m)
        } else {
            None
        },
        Step::BlendConfined(_) => if m.buffers >= 2 && m.alphas >= 1 {
            Some(Machine { buffers: (m.buffers - 1) as nat, ..m })
        } else {
            None
        },
        Step::Forget => if m.alphas >= 1 {
            Some(Machine { alphas: (m.alphas - 1) as nat, ..m })
        } else {
            None
        },
        Step::Blend { .. } => if m.buffers >= 1 {
            Some(Machine { buffers: (m.buffers - 1) as nat, ..m })
        } else {
            None
        },
    }
}

/// The machine after steps.
pub open spec fn after(m: Option<Machine>, steps: Seq<Step>) -> Option<Machine>
    decreases steps.len(),
{
    if steps.len() == 0 {
        m
    } else {
        match after(m, steps.drop_last()) {
            Some(before) => after_step(before, steps.last()),
            None => None,
        }
    }
}

proof fn lemma_after_both(m: Option<Machine>, a: Seq<Step>, b: Seq<Step>)
    ensures
        after(m, a + b) == after(after(m, a), b),
    decreases b.len(),
{
    if b.len() == 0 {
        assert(a + b =~= a);
    } else {
        lemma_after_both(m, a, b.drop_last());
        assert((a + b).drop_last() =~= a + b.drop_last());
    }
}

proof fn lemma_after_one(m: Machine, step: Step)
    ensures
        after(Some(m), seq![step]) == after_step(m, step),
{
    assert(seq![step].drop_last() =~= Seq::empty());
    reveal_with_fuel(after, 2);
}

proof fn lemma_drawn(layer: Layer, m: Machine)
    requires
        m.buffers >= 1,
    ensures
        after(Some(m), drawn(layer)) == Some(m),
    decreases layer, 0int, 0int,
{
    match layer.kind {
        LayerKind::Group(children) => {
            lemma_steps(children@, 0, m);
            if layer.mask_in_use {
                let own = steps_from(children@, 0);
                assert(drawn(layer) =~= own + seq![Step::Mask(layer.id)]);
                lemma_after_both(Some(m), own, seq![Step::Mask(layer.id)]);
                lemma_after_one(m, Step::Mask(layer.id));
            }
        },
        LayerKind::Raster { .. } => {
            let own = seq![Step::Pixels(layer.id)];
            lemma_after_one(m, Step::Pixels(layer.id));
            if layer.mask_in_use {
                assert(drawn(layer) =~= own + seq![Step::Mask(layer.id)]);
                lemma_after_both(Some(m), own, seq![Step::Mask(layer.id)]);
                lemma_after_one(m, Step::Mask(layer.id));
            }
        },
        LayerKind::Adjustment => {
            if layer.mask_in_use {
                assert(drawn(layer) =~= seq![Step::Mask(layer.id)]);
                lemma_after_one(m, Step::Mask(layer.id));
            }
        },
    }
}

/// Steps that leave a machine with a buffer more as they found it, with a
/// buffer opened before and dropped after.
proof fn lemma_wrapped(m: Machine, inner: Seq<Step>, close: Step)
    requires
        after(Some(Machine { buffers: m.buffers + 1, ..m }), inner) == Some(
            Machine { buffers: m.buffers + 1, ..m },
        ),
        after_step(Machine { buffers: m.buffers + 1, ..m }, close) == Some(m),
    ensures
        after(Some(m), seq![Step::Open] + inner + seq![close]) == Some(m),
{
    let more = Machine { buffers: m.buffers + 1, ..m };
    lemma_after_one(m, Step::Open);
    lemma_after_both(Some(m), seq![Step::Open], inner);
    lemma_after_both(Some(m), seq![Step::Open] + inner, seq![close]);
    lemma_after_one(more, close);
}

proof fn lemma_alone(layer: Layer, m: Machine)
    ensures
        after(Some(m), alone(layer)) == Some(m),
    decreases layer, 1int, 0int,
{
    let more = Machine { buffers: m.buffers + 1, ..m };
    match layer.kind {
        LayerKind::Group(children) => {
            if passes_through(layer) {
                lemma_steps(children@, 0, m);
            } else {
                lemma_steps(children@, 0, more);
                let mode = if layer.blend is PassThrough {
                    BlendMode::Normal
                } else {
                    layer.blend
                };
                lemma_wrapped(
                    m,
                    steps_from(children@, 0),
                    Step::Blend { layer: layer.id, mode, fill: false, masked: layer.mask_in_use },
                );
            }
        },
        LayerKind::Raster { blank } => {
            if !blank {
                lemma_drawn(layer, more);
                lemma_wrapped(
                    m,
                    drawn(layer),
                    Step::Blend { layer: layer.id, mode: layer.blend, fill: true, masked: false },
                );
            }
        },
        LayerKind::Adjustment => {
            lemma_after_one(m, Step::Adjust { layer: layer.id, confined: false });
        },
    }
}

proof fn lemma_clipped(layers: Seq<Layer>, j: int, end: int, m: Machine)
    requires
        0 <= j <= end <= layers.len(),
        m.buffers >= 1,
        m.alphas >= 1,
    ensures
        after(Some(m), clipped(layers, j, end)) == Some(m),
    decreases layers, end - j, 0int,
{
    if j < end {
        let layer = layers[j];
        let rest = clipped(layers, j + 1, end);
        lemma_clipped(layers, j + 1, end, m);
        if !layer.visible {
            assert(Seq::<Step>::empty() + rest =~= rest);
        } else if layer.kind is Adjustment {
            let head = seq![Step::Adjust { layer: layer.id, confined: true }];
            lemma_after_one(m, Step::Adjust { layer: layer.id, confined: true });
            lemma_after_both(Some(m), head, rest);
        } else {
            let more = Machine { buffers: m.buffers + 1, ..m };
            lemma_drawn(layer, more);
            lemma_wrapped(m, drawn(layer), Step::BlendConfined(layer.id));
            lemma_after_both(
                Some(m),
                seq![Step::Open] + drawn(layer) + seq![Step::BlendConfined(layer.id)],
                rest,
            );
        }
    }
}

proof fn lemma_steps(layers: Seq<Layer>, i: int, m: Machine)
    requires
        0 <= i <= layers.len(),
    ensures
        after(Some(m), steps_from(layers, i)) == Some(m),
    decreases layers, layers.len() - i, 1int,
{
    if i < layers.len() {
        lemma_run_end(layers, i + 1);
        let layer = layers[i];
        let end = stack_end(layers, i);
        let rest = steps_from(layers, end);
        lemma_steps(layers, end, m);
        if !layer.visible {
            assert(Seq::<Step>::empty() + rest =~= rest);
        } else if end > i + 1 {
            let more = Machine { buffers: m.buffers + 1, ..m };
            let both = Machine { buffers: m.buffers + 1, alphas: m.alphas + 1 };
            let tail = clipped(layers, i + 1, end);
            let blend = Step::Blend {
                layer: layer.id,
                mode: layer.blend,
                fill: true,
                masked: layer.kind is Group && layer.mask_in_use,
            };
            lemma_drawn(layer, more);
            lemma_after_one(more, Step::Remember);
            lemma_clipped(layers, i + 1, end, both);
            lemma_after_one(both, Step::Forget);
            let a = drawn(layer) + seq![Step::Remember];
            lemma_after_both(Some(more), drawn(layer), seq![Step::Remember]);
            lemma_after_both(Some(more), a, tail);
            lemma_after_both(Some(more), a + tail, seq![Step::Forget]);
            let inner = a + tail + seq![Step::Forget];
            lemma_wrapped(m, inner, blend);
            let head = seq![Step::Open] + drawn(layer) + seq![Step::Remember] + tail + seq![
                Step::Forget,
                blend,
            ];
            assert(head =~= seq![Step::Open] + inner + seq![blend]);
            lemma_after_both(Some(m), head, rest);
        } else {
            lemma_alone(layer, m);
            lemma_after_both(Some(m), alone(layer), rest);
        }
    }
}

/// The steps of any tree run to their end on any machine and leave its
/// stacks as they found them: every buffer that is opened is blended, and
/// every alpha that is remembered is forgotten.
pub proof fn law_plans_are_balanced(layers: Seq<Layer>, m: Machine)
    ensures
        after(Some(m), steps_from(layers, 0)) == Some(m),
{
    lemma_steps(layers, 0, m);
}

proof fn lemma_prefix_runs(m: Machine, steps: Seq<Step>, k: int)
    requires
        0 <= k <= steps.len(),
        after(Some(m), steps) is Some,
    ensures
        after(Some(m), steps.take(k)) is Some,
    decreases steps.len(),
{
    if k == steps.len() {
        assert(steps.take(k) =~= steps);
    } else {
        lemma_prefix_runs(m, steps.drop_last(), k);
        assert(steps.drop_last().take(k) =~= steps.take(k));
    }
}

proof fn lemma_more_runs_alike(m: Machine, more: Machine, steps: Seq<Step>)
    requires
        after(Some(m), steps) is Some,
    ensures
        ({
            let r = after(Some(m), steps)->0;
            after(
                Some(Machine { buffers: m.buffers + more.buffers, alphas: m.alphas + more.alphas }),
                steps,
            ) == Some(
                Machine { buffers: r.buffers + more.buffers, alphas: r.alphas + more.alphas },
            )
        }),
    decreases steps.len(),
{
    if steps.len() > 0 {
        lemma_more_runs_alike(m, more, steps.drop_last());
    }
}

/// The steps of a group's layers never touch what lay beneath when they
/// began: at no point are there fewer buffers, or fewer alphas.
pub proof fn law_groups_stay_within(layers: Seq<Layer>, m: Machine, k: int)
    requires
        0 <= k <= steps_from(layers, 0).len(),
    ensures
        after(Some(m), steps_from(layers, 0).take(k)) matches Some(now) && now.buffers >= m.buffers
            && now.alphas >= m.alphas,
{
    let none = Machine { buffers: 0, alphas: 0 };
    let steps = steps_from(layers, 0);
    law_plans_are_balanced(layers, none);
    lemma_prefix_runs(none, steps, k);
    lemma_more_runs_alike(none, m, steps.take(k));
}

/// A hidden layer leaves no step, and neither do the layers clipped to it.
pub proof fn law_hidden_layers_leave_no_step(layers: Seq<Layer>, i: int)
    requires
        0 <= i < layers.len(),
        !layers[i].visible,
    ensures
        steps_from(layers, i) == steps_from(layers, stack_end(layers, i)),
{
    assert(steps_from(layers, i) =~= steps_from(layers, stack_end(layers, i)));
}

/// A group that passes through does what its layers would do in its
/// place.
pub proof fn law_passing_through_changes_nothing(group: Layer)
    requires
        group.kind is Group,
        group.visible,
        passes_through(group),
    ensures
        steps_from(seq![group], 0) == steps_from(children_of(group), 0),
{
    let layers = seq![group];
    lemma_run_end(layers, 1);
    assert(steps_from(layers, 1) =~= Seq::empty());
    assert(steps_from(layers, 0) =~= alone(group));
}

/// The layer that a step names.
pub open spec fn named_by(step: Step) -> Option<u64> {
    match step {
        Step::Pixels(id) | Step::Mask(id) | Step::BlendConfined(id) => Some(id),
        Step::Adjust { layer, .. } => Some(layer),
        Step::Blend { layer, .. } => Some(layer),
        Step::Open | Step::Remember | Step::Forget => None,
    }
}

/// The nearest layer at or beneath layer `i` that is not clipping, or -1.
pub open spec fn nearest_base(layers: Seq<Layer>, i: int) -> int
    decreases i + 1,
{
    if i < 0 {
        -1
    } else if !layers[i].clipping {
        i
    } else {
        nearest_base(layers, i - 1)
    }
}

/// The layer whose alpha confines layer `i`: itself if it is not clipping or
/// if there is nothing beneath to clip it to.
pub open spec fn base_of(layers: Seq<Layer>, i: int) -> int {
    if nearest_base(layers, i) >= 0 {
        nearest_base(layers, i)
    } else {
        i
    }
}

/// Whether layer `i` shows among its siblings: it is visible, and so is what
/// it is clipped to.
pub open spec fn shows(layers: Seq<Layer>, i: int) -> bool {
    layers[i].visible && layers[base_of(layers, i)].visible
}

/// Whether a layer of this id shows among the layers from `i` on, or within
/// a group among them that does.
pub open spec fn shown(layers: Seq<Layer>, i: int, id: u64) -> bool
    decreases layers, layers.len() - i,
{
    if i < 0 || i >= layers.len() {
        false
    } else {
        (shows(layers, i) && (layers[i].id == id || match layers[i].kind {
            LayerKind::Group(children) => shown(children@, 0, id),
            _ => false,
        })) || shown(layers, i + 1, id)
    }
}

/// Whether a layer of this id that shows has something to paint: pixels, a
/// recolouring, or a group that does not pass through.
pub open spec fn painted(layers: Seq<Layer>, i: int, id: u64) -> bool
    decreases layers, layers.len() - i,
{
    if i < 0 || i >= layers.len() {
        false
    } else {
        (shows(layers, i) && match layers[i].kind {
            LayerKind::Group(children) => (layers[i].id == id && !passes_through(layers[i]))
                || painted(children@, 0, id),
            LayerKind::Raster { blank } => layers[i].id == id && !blank,
            LayerKind::Adjustment => layers[i].id == id,
        }) || painted(layers, i + 1, id)
    }
}

/// Whether a layer is the one of this id, or holds one that shows.
spec fn within(layer: Layer, id: u64) -> bool {
    layer.id == id || match layer.kind {
        LayerKind::Group(children) => shown(children@, 0, id),
        _ => false,
    }
}

spec fn paints(layer: Layer, id: u64) -> bool {
    match layer.kind {
        LayerKind::Group(children) => (layer.id == id && !passes_through(layer)) || painted(
            children@,
            0,
            id,
        ),
        LayerKind::Raster { blank } => layer.id == id && !blank,
        LayerKind::Adjustment => layer.id == id,
    }
}

/// Whether some step names a layer.
pub open spec fn names(steps: Seq<Step>, id: u64) -> bool {
    exists|k: int| 0 <= k < steps.len() && #[trigger] named_by(steps[k]) == Some(id)
}

proof fn lemma_names_both(a: Seq<Step>, b: Seq<Step>, id: u64)
    ensures
        names(a + b, id) == (names(a, id) || names(b, id)),
{
    if names(a, id) {
        let k = choose|k: int| 0 <= k < a.len() && #[trigger] named_by(a[k]) == Some(id);
        assert(named_by((a + b)[k]) == Some(id));
    }
    if names(b, id) {
        let k = choose|k: int| 0 <= k < b.len() && #[trigger] named_by(b[k]) == Some(id);
        assert(named_by((a + b)[a.len() + k]) == Some(id));
    }
    if names(a + b, id) {
        let k = choose|k: int|
            0 <= k < (a + b).len() && #[trigger] named_by((a + b)[k]) == Some(id);
        if k < a.len() {
            assert(named_by(a[k]) == Some(id));
        } else {
            assert(named_by(b[k - a.len()]) == Some(id));
        }
    }
}

proof fn lemma_names_one(step: Step, id: u64)
    ensures
        names(seq![step], id) == (named_by(step) == Some(id)),
{
    if named_by(step) == Some(id) {
        assert(named_by(seq![step][0]) == Some(id));
    }
}

proof fn lemma_names_drawn(layer: Layer, id: u64)
    ensures
        names(drawn(layer), id) ==> within(layer, id),
        paints(layer, id) && layer.id != id ==> names(drawn(layer), id),
    decreases layer, 0int, 0int,
{
    let own = match layer.kind {
        LayerKind::Group(children) => steps_from(children@, 0),
        LayerKind::Raster { .. } => seq![Step::Pixels(layer.id)],
        LayerKind::Adjustment => Seq::empty(),
    };
    match layer.kind {
        LayerKind::Group(children) => lemma_names_steps(children@, 0, id),
        LayerKind::Raster { .. } => lemma_names_one(Step::Pixels(layer.id), id),
        LayerKind::Adjustment => {},
    }
    if layer.mask_in_use {
        assert(drawn(layer) =~= own + seq![Step::Mask(layer.id)]);
        lemma_names_both(own, seq![Step::Mask(layer.id)], id);
        lemma_names_one(Step::Mask(layer.id), id);
    }
}

/// Steps in a buffer of their own name what they name and what closes it.
proof fn lemma_names_wrapped(inner: Seq<Step>, close: Step, id: u64)
    ensures
        names(seq![Step::Open] + inner + seq![close], id) == (names(inner, id) || named_by(close)
            == Some(id)),
{
    lemma_names_both(seq![Step::Open] + inner, seq![close], id);
    lemma_names_both(seq![Step::Open], inner, id);
    lemma_names_one(Step::Open, id);
    lemma_names_one(close, id);
}

proof fn lemma_names_stack(own: Seq<Step>, tail: Seq<Step>, close: Step, id: u64)
    ensures
        names(
            seq![Step::Open] + own + seq![Step::Remember] + tail + seq![Step::Forget, close],
            id,
        ) == (names(own, id) || names(tail, id) || named_by(close) == Some(id)),
{
    let inner = own + seq![Step::Remember] + tail + seq![Step::Forget];
    lemma_names_wrapped(inner, close, id);
    lemma_names_both(own + seq![Step::Remember] + tail, seq![Step::Forget], id);
    lemma_names_both(own + seq![Step::Remember], tail, id);
    lemma_names_both(own, seq![Step::Remember], id);
    lemma_names_one(Step::Remember, id);
    lemma_names_one(Step::Forget, id);
    assert(seq![Step::Open] + own + seq![Step::Remember] + tail + seq![Step::Forget, close]
        =~= seq![Step::Open] + inner + seq![close]);
}

proof fn lemma_names_alone(layer: Layer, id: u64)
    ensures
        names(alone(layer), id) ==> within(layer, id),
        paints(layer, id) ==> names(alone(layer), id),
    decreases layer, 1int, 0int,
{
    match layer.kind {
        LayerKind::Group(children) => {
            lemma_names_steps(children@, 0, id);
            if !passes_through(layer) {
                let mode = if layer.blend is PassThrough {
                    BlendMode::Normal
                } else {
                    layer.blend
                };
                lemma_names_wrapped(
                    steps_from(children@, 0),
                    Step::Blend { layer: layer.id, mode, fill: false, masked: layer.mask_in_use },
                    id,
                );
            }
        },
        LayerKind::Raster { blank } => {
            if !blank {
                lemma_names_drawn(layer, id);
                lemma_names_wrapped(
                    drawn(layer),
                    Step::Blend { layer: layer.id, mode: layer.blend, fill: true, masked: false },
                    id,
                );
            }
        },
        LayerKind::Adjustment => {
            lemma_names_one(Step::Adjust { layer: layer.id, confined: false }, id);
        },
    }
}

/// Layers clipped to one that is visible.
proof fn lemma_names_clipped(layers: Seq<Layer>, j: int, end: int, id: u64)
    requires
        0 <= j <= end <= layers.len(),
        forall|x: int| j <= x < end ==> layers[#[trigger] base_of(layers, x)].visible,
    ensures
        names(clipped(layers, j, end), id) ==> shown(layers, j, id),
        painted(layers, j, id) ==> names(clipped(layers, j, end), id) || painted(layers, end, id),
    decreases layers, end - j, 0int,
{
    if j < end {
        let layer = layers[j];
        let rest = clipped(layers, j + 1, end);
        lemma_names_clipped(layers, j + 1, end, id);
        assert(layers[base_of(layers, j)].visible);
        let head = if !layer.visible {
            Seq::empty()
        } else if layer.kind is Adjustment {
            lemma_names_one(Step::Adjust { layer: layer.id, confined: true }, id);
            seq![Step::Adjust { layer: layer.id, confined: true }]
        } else {
            lemma_names_drawn(layer, id);
            lemma_names_wrapped(drawn(layer), Step::BlendConfined(layer.id), id);
            seq![Step::Open] + drawn(layer) + seq![Step::BlendConfined(layer.id)]
        };
        lemma_names_both(head, rest, id);
        if !layer.visible {
            assert(!names(head, id));
        }
    }
}

proof fn lemma_stack(layers: Seq<Layer>, i: int, j: int)
    requires
        0 <= i < layers.len(),
        !layers[i].clipping,
        i < j <= layers.len(),
        j <= run_end(layers, i + 1),
    ensures
        forall|x: int| i < x < j ==> #[trigger] base_of(layers, x) == i,
        j == run_end(layers, i + 1) && j < layers.len() ==> base_of(layers, j) == j,
    decreases j,
{
    lemma_run_clips(layers, i + 1, j);
    assert forall|x: int| i < x < j implies #[trigger] base_of(layers, x) == i by {
        lemma_nearest(layers, i, x);
    }
}

proof fn lemma_run_clips(layers: Seq<Layer>, a: int, j: int)
    requires
        0 <= a <= j <= layers.len(),
        j <= run_end(layers, a),
    ensures
        forall|x: int| a <= x < j ==> (#[trigger] layers[x]).clipping,
        j == run_end(layers, a) && j < layers.len() ==> !layers[j].clipping,
    decreases layers.len() - a,
{
    if a < layers.len() && layers[a].clipping {
        if a < j {
            lemma_run_clips(layers, a + 1, j);
        } else {
            lemma_run_end(layers, a + 1);
        }
    }
}

proof fn lemma_nearest(layers: Seq<Layer>, i: int, x: int)
    requires
        0 <= i <= x < layers.len(),
        !layers[i].clipping,
        forall|y: int| i < y <= x ==> (#[trigger] layers[y]).clipping,
    ensures
        nearest_base(layers, x) == i,
    decreases x,
{
    if i < x {
        lemma_nearest(layers, i, x - 1);
    }
}

proof fn lemma_shown_later(layers: Seq<Layer>, i: int, j: int, id: u64)
    requires
        0 <= i <= j,
        shown(layers, j, id),
    ensures
        shown(layers, i, id),
    decreases j - i,
{
    if i < j {
        if j - 1 < layers.len() {
            lemma_shown_later(layers, i, j - 1, id);
        }
    }
}

proof fn lemma_hidden_stack(layers: Seq<Layer>, i: int, j: int, end: int, id: u64)
    requires
        0 <= i < j <= end <= layers.len(),
        !layers[i].visible,
        forall|x: int| j <= x < end ==> #[trigger] base_of(layers, x) == i,
        painted(layers, j, id),
    ensures
        painted(layers, end, id),
    decreases end - j,
{
    if j < end {
        assert(base_of(layers, j) == i);
        lemma_hidden_stack(layers, i, j + 1, end, id);
    }
}

proof fn lemma_first_base(layers: Seq<Layer>)
    ensures
        layers.len() > 0 ==> base_of(layers, 0) == 0,
{
    reveal_with_fuel(nearest_base, 2);
}

proof fn lemma_nearest_is_beneath(layers: Seq<Layer>, i: int)
    requires
        0 <= i,
    ensures
        nearest_base(layers, i) >= 0 ==> nearest_base(layers, i) <= i
            && !layers[nearest_base(layers, i)].clipping,
    decreases i,
{
    if i > 0 {
        lemma_nearest_is_beneath(layers, i - 1);
    } else {
        reveal_with_fuel(nearest_base, 2);
    }
}

proof fn lemma_next_base(layers: Seq<Layer>, i: int)
    requires
        0 <= i < layers.len(),
        i > 0 ==> base_of(layers, i) == i,
    ensures
        base_of(layers, i) == i,
        i < stack_end(layers, i) <= layers.len(),
        forall|x: int| i < x < stack_end(layers, i) ==> #[trigger] base_of(layers, x) == i,
        stack_end(layers, i) < layers.len() ==> base_of(layers, stack_end(layers, i))
            == stack_end(layers, i),
        layers[i].clipping ==> stack_end(layers, i) == i + 1,
{
    let end = stack_end(layers, i);
    lemma_run_end(layers, i + 1);
    lemma_first_base(layers);
    if !layers[i].clipping {
        lemma_stack(layers, i, end);
    } else {
        lemma_nearest_is_beneath(layers, i);
        if end < layers.len() && layers[end].clipping {
            assert(nearest_base(layers, end) == nearest_base(layers, i));
        }
    }
}

proof fn lemma_names_steps(layers: Seq<Layer>, i: int, id: u64)
    requires
        0 <= i <= layers.len(),
        0 < i < layers.len() ==> base_of(layers, i) == i,
    ensures
        names(steps_from(layers, i), id) ==> shown(layers, i, id),
        painted(layers, i, id) ==> names(steps_from(layers, i), id),
    decreases layers, layers.len() - i, 1int,
{
    if i < layers.len() {
        lemma_run_end(layers, i + 1);
        let layer = layers[i];
        let end = stack_end(layers, i);
        let rest = steps_from(layers, end);
        lemma_next_base(layers, i);
        lemma_names_steps(layers, end, id);
        if shown(layers, end, id) {
            lemma_shown_later(layers, i, end, id);
        }
        let blend = Step::Blend {
            layer: layer.id,
            mode: layer.blend,
            fill: true,
            masked: layer.kind is Group && layer.mask_in_use,
        };
        let head = if !layer.visible {
            Seq::empty()
        } else if end > i + 1 {
            let tail = clipped(layers, i + 1, end);
            assert forall|x: int| i + 1 <= x < end implies layers[#[trigger] base_of(
                layers,
                x,
            )].visible by {
                assert(base_of(layers, x) == i);
            }
            lemma_names_clipped(layers, i + 1, end, id);
            lemma_names_drawn(layer, id);
            lemma_names_stack(drawn(layer), tail, blend, id);
            seq![Step::Open] + drawn(layer) + seq![Step::Remember] + tail + seq![
                Step::Forget,
                blend,
            ]
        } else {
            lemma_names_alone(layer, id);
            alone(layer)
        };
        lemma_names_both(head, rest, id);
        if !layer.visible {
            assert(!names(head, id));
            if painted(layers, i, id) {
                if layer.clipping {
                    assert(end == i + 1);
                } else {
                    lemma_hidden_stack(layers, i, i + 1, end, id);
                }
            }
        }
    }
}

/// No step of a plan names a layer that does not show: wherever it stands in
/// the tree, the layer that a step names is visible, and so are what it is
/// clipped to and every group around it. With ids that differ, a hidden
/// layer is never drawn, clipped or not.
pub proof fn law_plans_name_only_what_shows(layers: Seq<Layer>, k: int, id: u64)
    requires
        0 <= k < steps_from(layers, 0).len(),
        named_by(steps_from(layers, 0)[k]) == Some(id),
    ensures
        shown(layers, 0, id),
{
    assert(names(steps_from(layers, 0), id));
    lemma_names_steps(layers, 0, id);
}

/// Nothing that shows is left out: a plan names every layer that shows and
/// has something to paint.
pub proof fn law_plans_leave_nothing_out(layers: Seq<Layer>, id: u64)
    requires
        painted(layers, 0, id),
    ensures
        exists|k: int|
            0 <= k < steps_from(layers, 0).len() && #[trigger] named_by(steps_from(layers, 0)[k])
                == Some(id),
{
    lemma_names_steps(layers, 0, id);
}

// --------------------------------------------------------- the picture

/// What a buffer holds, as the way it came about.
pub enum Picture {
    /// Nothing.
    Blank,
    /// A raster layer's own pixels, drawn over something.
    Drawn { over: Box<Picture>, layer: u64 },
    /// Something whose alpha is multiplied by a layer's mask.
    Masked { of: Box<Picture>, layer: u64 },
    /// Something recoloured, everywhere or as far as an alpha reaches.
    Adjusted { of: Box<Picture>, layer: u64, within: Option<Box<Picture>> },
    /// Something laid onto something with a mode and opacities.
    Laid { top: Box<Picture>, onto: Box<Picture>, layer: u64, mode: BlendMode, fill: bool, masked: bool },
    /// Something laid onto something with a layer's mode and opacities, as
    /// far as an alpha reaches.
    Confined { top: Box<Picture>, onto: Box<Picture>, layer: u64, reach: Box<Picture> },
}

/// The pictures in the buffers of the machine, and those whose alpha is
/// remembered.
#[verifier::ext_equal]
pub struct Canvas {
    pub buffers: Seq<Picture>,
    pub alphas: Seq<Picture>,
}

impl Canvas {
    /// The top buffer.
    pub open spec fn top(self) -> Picture {
        self.buffers.last()
    }

    /// The canvas with something else in its top buffer.
    pub open spec fn with_top(self, picture: Picture) -> Canvas {
        Canvas { buffers: self.buffers.drop_last().push(picture), ..self }
    }

    /// The canvas with a buffer more.
    pub open spec fn opened(self, picture: Picture) -> Canvas {
        Canvas { buffers: self.buffers.push(picture), ..self }
    }

    /// The canvas without its top buffer.
    pub open spec fn closed_top(self) -> Canvas {
        Canvas { buffers: self.buffers.drop_last(), ..self }
    }

    /// The canvas after a step.
    pub open spec fn after(self, step: Step) -> Canvas {
        match step {
            Step::Open => self.opened(Picture::Blank),
            Step::Pixels(layer) => self.with_top(
                Picture::Drawn { over: Box::new(self.top()), layer },
            ),
            Step::Mask(layer) => self.with_top(
                Picture::Masked { of: Box::new(self.top()), layer },
            ),
            Step::Remember => Canvas { alphas: self.alphas.push(self.top()), ..self },
            Step::Adjust { layer, confined } => self.with_top(
                Picture::Adjusted {
                    of: Box::new(self.top()),
                    layer,
                    within: if confined {
                        Some(Box::new(self.alphas.last()))
                    } else {
                        None
                    },
                },
            ),
            Step::BlendConfined(layer) => {
                let below = self.closed_top();
                below.with_top(
                    Picture::Confined {
                        top: Box::new(self.top()),
                        onto: Box::new(below.top()),
                        layer,
                        reach: Box::new(self.alphas.last()),
                    },
                )
            },
            Step::Forget => Canvas { alphas: self.alphas.drop_last(), ..self },
            Step::Blend { layer, mode, fill, masked } => {
                let below = self.closed_top();
                below.with_top(
                    Picture::Laid {
                        top: Box::new(self.top()),
                        onto: Box::new(below.top()),
                        layer,
                        mode,
                        fill,
                        masked,
                    },
                )
            },
        }
    }

    /// The canvas after steps.
    pub open spec fn run(self, steps: Seq<Step>) -> Canvas
        decreases steps.len(),
    {
        if steps.len() == 0 {
            self
        } else {
            self.run(steps.drop_last()).after(steps.last())
        }
    }

    proof fn lemma_run_both(self, a: Seq<Step>, b: Seq<Step>)
        ensures
            self.run(a + b) == self.run(a).run(b),
        decreases b.len(),
    {
        if b.len() == 0 {
            assert(a + b =~= a);
        } else {
            self.lemma_run_both(a, b.drop_last());
            assert((a + b).drop_last() =~= a + b.drop_last());
        }
    }

    proof fn lemma_run_one(self, step: Step)
        ensures
            self.run(seq![step]) == self.after(step),
    {
        assert(seq![step].drop_last() =~= Seq::empty());
        reveal_with_fuel(Canvas::run, 2);
    }

    proof fn lemma_tops(self, a: Picture, b: Picture)
        ensures
            self.opened(a).top() == a,
            self.opened(a).with_top(b) == self.opened(b),
            self.opened(a).closed_top() == self,
            self.buffers.len() >= 1 ==> self.with_top(self.top()) == self,
            self.buffers.len() >= 1 ==> self.with_top(a).top() == a && self.with_top(a).with_top(b)
                == self.with_top(b),
    {
        assert(self.opened(a).with_top(b).buffers =~= self.opened(b).buffers);
        assert(self.opened(a).closed_top().buffers =~= self.buffers);
        if self.buffers.len() >= 1 {
            assert(self.with_top(self.top()).buffers =~= self.buffers);
            assert(self.with_top(a).with_top(b).buffers =~= self.with_top(b).buffers);
        }
    }

    /// A buffer that is opened, filled and laid down.
    proof fn lemma_run_wrapped(self, inner: Seq<Step>, filled: Picture, close: Step)
        requires
            self.buffers.len() >= 1,
            self.opened(Picture::Blank).run(inner) == self.opened(filled),
        ensures
            self.run(seq![Step::Open] + inner + seq![close]) == self.opened(filled).after(close),
    {
        self.lemma_run_both(seq![Step::Open] + inner, seq![close]);
        self.lemma_run_both(seq![Step::Open], inner);
        self.lemma_run_one(Step::Open);
        self.opened(filled).lemma_run_one(close);
    }
}

/// A layer by itself: its pixels, or the picture of its layers, under its
/// mask.
pub open spec fn picture_of(layer: Layer) -> Picture
    decreases layer, 0int,
{
    let own = match layer.kind {
        LayerKind::Group(children) => composed(children@, 0, Picture::Blank),
        LayerKind::Raster { .. } => Picture::Drawn {
            over: Box::new(Picture::Blank),
            layer: layer.id,
        },
        LayerKind::Adjustment => Picture::Blank,
    };
    if layer.mask_in_use {
        Picture::Masked { of: Box::new(own), layer: layer.id }
    } else {
        own
    }
}

/// A visible layer that nothing is clipped to, over what is beneath it: a
/// group that passes through adds its layers one by one, any other is laid
/// down whole under its mask; pixels are laid down under their mask, if
/// there are any; an adjustment recolours.
pub open spec fn composed_alone(layer: Layer, beneath: Picture) -> Picture
    decreases layer, 1int,
{
    match layer.kind {
        LayerKind::Group(children) => if layer.blend is PassThrough && layer.opaque
            && !layer.masked {
            composed(children@, 0, beneath)
        } else {
            Picture::Laid {
                top: Box::new(composed(children@, 0, Picture::Blank)),
                onto: Box::new(beneath),
                layer: layer.id,
                mode: if layer.blend is PassThrough {
                    BlendMode::Normal
                } else {
                    layer.blend
                },
                fill: false,
                masked: layer.mask_in_use,
            }
        },
        LayerKind::Raster { blank } => if blank {
            beneath
        } else {
            Picture::Laid {
                top: Box::new(picture_of(layer)),
                onto: Box::new(beneath),
                layer: layer.id,
                mode: layer.blend,
                fill: true,
                masked: false,
            }
        },
        LayerKind::Adjustment => Picture::Adjusted {
            of: Box::new(beneath),
            layer: layer.id,
            within: None,
        },
    }
}

/// The clipping layers from `j` up to `end` over a picture, as far as the
/// alpha of their base reaches.
pub open spec fn composed_within(
    layers: Seq<Layer>,
    j: int,
    end: int,
    base: Picture,
    beneath: Picture,
) -> Picture
    decreases layers, end - j,
{
    if j < 0 || j >= end || j >= layers.len() {
        beneath
    } else {
        let next = if !layers[j].visible {
            beneath
        } else if layers[j].kind is Adjustment {
            Picture::Adjusted {
                of: Box::new(beneath),
                layer: layers[j].id,
                within: Some(Box::new(base)),
            }
        } else {
            Picture::Confined {
                top: Box::new(picture_of(layers[j])),
                onto: Box::new(beneath),
                layer: layers[j].id,
                reach: Box::new(base),
            }
        };
        composed_within(layers, j + 1, end, base, next)
    }
}

/// Sibling layers from number `i` on over what is beneath them, bottom to
/// top. A layer and those clipped to it are put together apart and laid down
/// with its mode.
pub open spec fn composed(layers: Seq<Layer>, i: int, beneath: Picture) -> Picture
    decreases layers, layers.len() - i,
{
    if i < 0 || i >= layers.len() {
        beneath
    } else {
        proof {
            lemma_run_end(layers, i + 1);
        }
        let layer = layers[i];
        let end = stack_end(layers, i);
        let next = if !layer.visible {
            beneath
        } else if end > i + 1 {
            let base = picture_of(layer);
            Picture::Laid {
                top: Box::new(composed_within(layers, i + 1, end, base, base)),
                onto: Box::new(beneath),
                layer: layer.id,
                mode: layer.blend,
                fill: true,
                masked: layer.kind is Group && layer.mask_in_use,
            }
        } else {
            composed_alone(layer, beneath)
        };
        composed(layers, end, next)
    }
}

proof fn lemma_runs_drawn(layer: Layer, c: Canvas)
    requires
        c.buffers.len() >= 1,
        c.top() == Picture::Blank,
    ensures
        c.run(drawn(layer)) == c.with_top(picture_of(layer)),
    decreases layer, 0int, 0int,
{
    let (own, picture) = match layer.kind {
        LayerKind::Group(children) => (
            steps_from(children@, 0),
            composed(children@, 0, Picture::Blank),
        ),
        LayerKind::Raster { .. } => (
            seq![Step::Pixels(layer.id)],
            Picture::Drawn { over: Box::new(Picture::Blank), layer: layer.id },
        ),
        LayerKind::Adjustment => (Seq::empty(), Picture::Blank),
    };
    c.lemma_tops(picture, picture_of(layer));
    match layer.kind {
        LayerKind::Group(children) => lemma_runs_steps(children@, 0, c),
        LayerKind::Raster { .. } => c.lemma_run_one(Step::Pixels(layer.id)),
        LayerKind::Adjustment => {},
    }
    assert(c.run(own) == c.with_top(picture));
    if layer.mask_in_use {
        assert(drawn(layer) =~= own + seq![Step::Mask(layer.id)]);
        c.lemma_run_both(own, seq![Step::Mask(layer.id)]);
        c.with_top(picture).lemma_run_one(Step::Mask(layer.id));
    }
}

proof fn lemma_runs_alone(layer: Layer, c: Canvas)
    requires
        c.buffers.len() >= 1,
    ensures
        c.run(alone(layer)) == c.with_top(composed_alone(layer, c.top())),
    decreases layer, 1int, 0int,
{
    let blank = c.opened(Picture::Blank);
    match layer.kind {
        LayerKind::Group(children) => {
            if passes_through(layer) {
                lemma_runs_steps(children@, 0, c);
            } else {
                let filled = composed(children@, 0, Picture::Blank);
                c.lemma_tops(Picture::Blank, filled);
                c.lemma_tops(filled, filled);
                lemma_runs_steps(children@, 0, blank);
                let mode = if layer.blend is PassThrough {
                    BlendMode::Normal
                } else {
                    layer.blend
                };
                c.lemma_run_wrapped(
                    steps_from(children@, 0),
                    filled,
                    Step::Blend { layer: layer.id, mode, fill: false, masked: layer.mask_in_use },
                );
            }
        },
        LayerKind::Raster { blank: nothing } => {
            if nothing {
                c.lemma_tops(Picture::Blank, Picture::Blank);
            } else {
                let filled = picture_of(layer);
                c.lemma_tops(Picture::Blank, filled);
                c.lemma_tops(filled, filled);
                lemma_runs_drawn(layer, blank);
                c.lemma_run_wrapped(
                    drawn(layer),
                    filled,
                    Step::Blend { layer: layer.id, mode: layer.blend, fill: true, masked: false },
                );
            }
        },
        LayerKind::Adjustment => {
            c.lemma_run_one(Step::Adjust { layer: layer.id, confined: false });
        },
    }
}

proof fn lemma_runs_clipped(layers: Seq<Layer>, j: int, end: int, c: Canvas)
    requires
        0 <= j <= end <= layers.len(),
        c.buffers.len() >= 1,
        c.alphas.len() >= 1,
    ensures
        c.run(clipped(layers, j, end)) == c.with_top(
            composed_within(layers, j, end, c.alphas.last(), c.top()),
        ),
    decreases layers, end - j, 0int,
{
    c.lemma_tops(Picture::Blank, Picture::Blank);
    if j < end {
        let layer = layers[j];
        let rest = clipped(layers, j + 1, end);
        if !layer.visible {
            assert(Seq::<Step>::empty() + rest =~= rest);
            lemma_runs_clipped(layers, j + 1, end, c);
        } else if layer.kind is Adjustment {
            let step = Step::Adjust { layer: layer.id, confined: true };
            let next = c.after(step);
            c.lemma_run_one(step);
            c.lemma_run_both(seq![step], rest);
            lemma_runs_clipped(layers, j + 1, end, next);
            c.lemma_tops(next.top(), c.run(seq![step] + rest).top());
            assert(next.with_top(composed_within(layers, j + 1, end, c.alphas.last(), next.top()))
                == c.with_top(composed_within(layers, j + 1, end, c.alphas.last(), next.top())))
                by {
                c.lemma_tops(
                    next.top(),
                    composed_within(layers, j + 1, end, c.alphas.last(), next.top()),
                );
            }
        } else {
            let filled = picture_of(layer);
            let step = Step::BlendConfined(layer.id);
            c.lemma_tops(Picture::Blank, filled);
            c.lemma_tops(filled, filled);
            lemma_runs_drawn(layer, c.opened(Picture::Blank));
            c.lemma_run_wrapped(drawn(layer), filled, step);
            let next = c.opened(filled).after(step);
            let head = seq![Step::Open] + drawn(layer) + seq![step];
            c.lemma_run_both(head, rest);
            lemma_runs_clipped(layers, j + 1, end, next);
            c.lemma_tops(
                next.top(),
                composed_within(layers, j + 1, end, c.alphas.last(), next.top()),
            );
        }
    }
}

proof fn lemma_runs_stack(layers: Seq<Layer>, i: int, end: int, c: Canvas)
    requires
        0 <= i < end <= layers.len(),
        c.buffers.len() >= 1,
    ensures
        ({
            let layer = layers[i];
            let base = picture_of(layer);
            let blend = Step::Blend {
                layer: layer.id,
                mode: layer.blend,
                fill: true,
                masked: layer.kind is Group && layer.mask_in_use,
            };
            c.run(
                seq![Step::Open] + drawn(layer) + seq![Step::Remember] + clipped(
                    layers,
                    i + 1,
                    end,
                ) + seq![Step::Forget, blend],
            ) == c.with_top(
                Picture::Laid {
                    top: Box::new(composed_within(layers, i + 1, end, base, base)),
                    onto: Box::new(c.top()),
                    layer: layer.id,
                    mode: layer.blend,
                    fill: true,
                    masked: layer.kind is Group && layer.mask_in_use,
                },
            )
        }),
    decreases layers, end - i, 1int,
{
    let layer = layers[i];
    let base = picture_of(layer);
    let tail = clipped(layers, i + 1, end);
    let filled = composed_within(layers, i + 1, end, base, base);
    let blend = Step::Blend {
        layer: layer.id,
        mode: layer.blend,
        fill: true,
        masked: layer.kind is Group && layer.mask_in_use,
    };
    let blank = c.opened(Picture::Blank);
    let held = c.opened(base);
    let kept = Canvas { alphas: c.alphas.push(base), ..held };
    c.lemma_tops(Picture::Blank, base);
    c.lemma_tops(base, filled);
    c.lemma_tops(filled, filled);
    lemma_runs_drawn(layer, blank);
    held.lemma_run_one(Step::Remember);
    lemma_runs_clipped(layers, i + 1, end, kept);
    let done = kept.with_top(filled);
    done.lemma_run_one(Step::Forget);
    assert(done.after(Step::Forget) == c.opened(filled)) by {
        assert(done.buffers =~= c.opened(filled).buffers);
        assert(c.alphas.push(base).drop_last() =~= c.alphas);
    }
    blank.lemma_run_both(drawn(layer), seq![Step::Remember]);
    blank.lemma_run_both(drawn(layer) + seq![Step::Remember], tail);
    blank.lemma_run_both(drawn(layer) + seq![Step::Remember] + tail, seq![Step::Forget]);
    let inner = drawn(layer) + seq![Step::Remember] + tail + seq![Step::Forget];
    c.lemma_run_wrapped(inner, filled, blend);
    assert(seq![Step::Open] + drawn(layer) + seq![Step::Remember] + tail + seq![Step::Forget, blend]
        =~= seq![Step::Open] + inner + seq![blend]);
}

proof fn lemma_runs_steps(layers: Seq<Layer>, i: int, c: Canvas)
    requires
        0 <= i <= layers.len(),
        c.buffers.len() >= 1,
    ensures
        c.run(steps_from(layers, i)) == c.with_top(composed(layers, i, c.top())),
    decreases layers, layers.len() - i, 2int,
{
    c.lemma_tops(Picture::Blank, Picture::Blank);
    if i < layers.len() {
        lemma_run_end(layers, i + 1);
        let layer = layers[i];
        let end = stack_end(layers, i);
        let rest = steps_from(layers, end);
        if !layer.visible {
            assert(Seq::<Step>::empty() + rest =~= rest);
            lemma_runs_steps(layers, end, c);
        } else {
            let (head, next) = if end > i + 1 {
                lemma_runs_stack(layers, i, end, c);
                let base = picture_of(layer);
                let blend = Step::Blend {
                    layer: layer.id,
                    mode: layer.blend,
                    fill: true,
                    masked: layer.kind is Group && layer.mask_in_use,
                };
                (
                    seq![Step::Open] + drawn(layer) + seq![Step::Remember] + clipped(
                        layers,
                        i + 1,
                        end,
                    ) + seq![Step::Forget, blend],
                    Picture::Laid {
                        top: Box::new(composed_within(layers, i + 1, end, base, base)),
                        onto: Box::new(c.top()),
                        layer: layer.id,
                        mode: layer.blend,
                        fill: true,
                        masked: layer.kind is Group && layer.mask_in_use,
                    },
                )
            } else {
                lemma_runs_alone(layer, c);
                (alone(layer), composed_alone(layer, c.top()))
            };
            c.lemma_run_both(head, rest);
            lemma_runs_steps(layers, end, c.with_top(next));
            c.lemma_tops(next, composed(layers, end, next));
        }
    }
}

/// A plan composes the tree: run over any canvas, it leaves in the top
/// buffer the layers put together over what was there, and everything else
/// as it was.
pub proof fn law_plans_compose_the_tree(layers: Seq<Layer>, c: Canvas)
    requires
        c.buffers.len() >= 1,
    ensures
        c.run(steps_from(layers, 0)) == c.with_top(composed(layers, 0, c.top())),
{
    lemma_runs_steps(layers, 0, c);
}

} // verus!

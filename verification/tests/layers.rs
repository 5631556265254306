use schist::blend::BlendMode;
use schist::layers::{blend_path, plan, BlendPath, Layer, LayerKind, Step};

/// What the machine looks up of a layer, at the one pixel it draws.
#[derive(Clone, Copy)]
struct Look {
    rgba: [f32; 4],
    opacity: f32,
    mask: f32,
}

/// Layers, and what each looks like at one pixel.
struct Tree {
    layers: Vec<Layer>,
    looks: Vec<Look>,
}

impl Tree {
    fn new() -> Tree {
        Tree { layers: Vec::new(), looks: Vec::new() }
    }

    fn make(&mut self, rgba: Option<[u8; 4]>, kind: LayerKind) -> Layer {
        let rgba = rgba.unwrap_or([0; 4]).map(|v| v as f32 / 255.0);
        self.looks.push(Look { rgba, opacity: 1.0, mask: 1.0 });
        Layer {
            id: self.looks.len() as u64 - 1,
            visible: true,
            clipping: false,
            blend: BlendMode::Normal,
            opaque: true,
            masked: false,
            mask_in_use: false,
            kind,
        }
    }

    /// A layer of one colour; none at this pixel if it has no alpha.
    fn solid(&mut self, rgba: [u8; 4]) -> Layer {
        self.make(Some(rgba), LayerKind::Raster { blank: false })
    }

    fn invert(&mut self) -> Layer {
        self.make(None, LayerKind::Adjustment)
    }

    fn opacity(&mut self, layer: &mut Layer, opacity: f32) {
        layer.opaque = opacity >= 1.0;
        self.looks[layer.id as usize].opacity = opacity;
    }

    fn mask(&mut self, layer: &mut Layer, value: f32) {
        layer.masked = true;
        layer.mask_in_use = true;
        self.looks[layer.id as usize].mask = value;
    }

    /// The composite at the pixel.
    fn pixel(&self) -> [u8; 4] {
        let mut buffers = vec![[0.0f32; 4]];
        let mut alphas: Vec<f32> = Vec::new();
        for step in plan(&self.layers) {
            match step {
                Step::Open => buffers.push([0.0; 4]),
                Step::Pixels(id) => {
                    *buffers.last_mut().unwrap() = self.looks[id as usize].rgba;
                }
                Step::Mask(id) => {
                    buffers.last_mut().unwrap()[3] *= self.looks[id as usize].mask;
                }
                Step::Remember => alphas.push(buffers.last().unwrap()[3]),
                Step::Adjust { layer, confined } => {
                    let look = self.looks[layer as usize];
                    let mut weight = look.opacity * look.mask;
                    if confined {
                        weight *= alphas.last().unwrap();
                    }
                    let top = buffers.last_mut().unwrap();
                    if top[3] > 0.0 {
                        for v in &mut top[..3] {
                            *v += (1.0 - 2.0 * *v) * weight;
                        }
                    }
                }
                Step::BlendConfined(id) => {
                    let source = buffers.pop().unwrap();
                    let scale = self.looks[id as usize].opacity * alphas.last().unwrap();
                    over(source, scale, BlendMode::Normal, buffers.last_mut().unwrap());
                }
                Step::Forget => {
                    alphas.pop().unwrap();
                }
                Step::Blend { layer, mode, masked, .. } => {
                    let source = buffers.pop().unwrap();
                    let look = self.looks[layer as usize];
                    let scale = look.opacity * if masked { look.mask } else { 1.0 };
                    over(source, scale, mode, buffers.last_mut().unwrap());
                }
            }
        }
        // A plan leaves the machine as it found it.
        assert!(buffers.len() == 1 && alphas.is_empty());
        buffers[0].map(|v| (v * 255.0 + 0.5) as u8)
    }
}

fn over(source: [f32; 4], scale: f32, mode: BlendMode, onto: &mut [f32; 4]) {
    let a = source[3] * scale;
    let sum = a + onto[3] * (1.0 - a);
    if sum > 0.0 {
        for i in 0..3 {
            let mixed = match mode {
                BlendMode::Normal => source[i],
                BlendMode::Multiply => source[i] * onto[i],
                other => panic!("{other:?}"),
            };
            let own = source[i] * (1.0 - onto[3]) + mixed * onto[3];
            onto[i] = (own * a + onto[i] * onto[3] * (1.0 - a)) / sum;
        }
    }
    onto[3] = sum;
}

#[test]
fn single_opaque_layer() {
    let mut tree = Tree::new();
    let red = tree.solid([255, 0, 0, 255]);
    tree.layers.push(red);
    assert_eq!(tree.pixel(), [255, 0, 0, 255]);
}

#[test]
fn multiply_layers() {
    let mut tree = Tree::new();
    let below = tree.solid([128, 128, 128, 255]);
    let mut top = tree.solid([128, 128, 128, 255]);
    top.blend = BlendMode::Multiply;
    tree.layers.push(below);
    tree.layers.push(top);
    let p = tree.pixel();
    // 128/255 * 128/255 is about 64.25/255.
    assert!((p[0] as i32 - 64).abs() <= 1, "{p:?}");
}

#[test]
fn half_opacity_over_white() {
    let mut tree = Tree::new();
    let white = tree.solid([255, 255, 255, 255]);
    let mut top = tree.solid([0, 0, 0, 255]);
    tree.opacity(&mut top, 0.5);
    tree.layers.push(white);
    tree.layers.push(top);
    let p = tree.pixel();
    assert!((p[0] as i32 - 128).abs() <= 1, "{p:?}");
}

#[test]
fn hidden_layer_skipped() {
    let mut tree = Tree::new();
    let green = tree.solid([0, 255, 0, 255]);
    let mut top = tree.solid([255, 0, 0, 255]);
    top.visible = false;
    tree.layers.push(green);
    tree.layers.push(top);
    assert_eq!(tree.pixel(), [0, 255, 0, 255]);
}

#[test]
fn layer_mask_hides_pixels() {
    for (value, want) in [(1.0, [255, 0, 0, 255]), (0.0, [0, 0, 255, 255])] {
        let mut tree = Tree::new();
        let bg = tree.solid([0, 0, 255, 255]);
        let mut top = tree.solid([255, 0, 0, 255]);
        tree.mask(&mut top, value);
        tree.layers.push(bg);
        tree.layers.push(top);
        assert_eq!(tree.pixel(), want);
    }
}

#[test]
fn isolated_group_opacity() {
    // Group of [opaque red] at 50% group opacity over white:
    // must be pink (127-ish), not double-faded.
    let mut tree = Tree::new();
    let bg = tree.solid([255, 255, 255, 255]);
    let red = tree.solid([255, 0, 0, 255]);
    let mut group = tree.make(None, LayerKind::Group(vec![red]));
    tree.opacity(&mut group, 0.5);
    tree.layers.push(bg);
    tree.layers.push(group);
    let p = tree.pixel();
    assert!(
        (p[0] as i32 - 255).abs() <= 1 && (p[1] as i32 - 128).abs() <= 1,
        "{p:?}"
    );
}

#[test]
fn clipping_layer_confined_to_base_alpha() {
    // Inside the base and outside of it.
    for (alpha, want) in [(255, [0, 255, 0, 255]), (0, [255, 255, 255, 255])] {
        let mut tree = Tree::new();
        let bg = tree.solid([255, 255, 255, 255]);
        let base = tree.solid([0, 0, 255, alpha]);
        // Clipped green covers everything but must show only over base.
        let mut clip = tree.solid([0, 255, 0, 255]);
        clip.clipping = true;
        tree.layers.push(bg);
        tree.layers.push(base);
        tree.layers.push(clip);
        assert_eq!(tree.pixel(), want);
    }
}

#[test]
fn invert_adjustment_affects_layers_below() {
    let mut tree = Tree::new();
    let gray = tree.solid([128, 128, 128, 255]);
    let adj = tree.invert();
    tree.layers.push(gray);
    tree.layers.push(adj);
    let p = tree.pixel();
    assert!((p[0] as i32 - 127).abs() <= 2, "inverted mid-grey: {p:?}");

    let mut tree = Tree::new();
    let bg = tree.solid([200, 50, 0, 255]);
    let adj = tree.invert();
    tree.layers.push(bg);
    tree.layers.push(adj);
    assert_eq!(tree.pixel(), [55, 205, 255, 255]);
}

#[test]
fn hidden_adjustment_does_nothing() {
    let mut tree = Tree::new();
    let bg = tree.solid([128, 128, 128, 255]);
    let mut adj = tree.invert();
    adj.visible = false;
    tree.layers.push(bg);
    tree.layers.push(adj);
    assert_eq!(tree.pixel(), [128, 128, 128, 255]);
}

#[test]
fn adjustment_opacity_blends_the_effect() {
    // Half-strength invert of mid-grey stays mid-grey.
    let mut tree = Tree::new();
    let gray = tree.solid([128, 128, 128, 255]);
    let mut adj = tree.invert();
    tree.opacity(&mut adj, 0.5);
    tree.layers.push(gray);
    tree.layers.push(adj);
    let p = tree.pixel();
    assert!((p[0] as i32 - 128).abs() <= 2, "{p:?}");

    let mut tree = Tree::new();
    let bg = tree.solid([0, 0, 0, 255]);
    let mut adj = tree.invert();
    tree.opacity(&mut adj, 0.25);
    tree.layers.push(bg);
    tree.layers.push(adj);
    let p = tree.pixel();
    assert!((p[0] as i32 - 64).abs() <= 2, "quarter invert of black: {p:?}");
}

#[test]
fn adjustment_mask_limits_the_effect() {
    // The masked half inverts (127), the rest stays 128.
    for (value, want, slack) in [(1.0, 127, 2), (0.0, 128, 0)] {
        let mut tree = Tree::new();
        let gray = tree.solid([128, 128, 128, 255]);
        let mut adj = tree.invert();
        tree.mask(&mut adj, value);
        tree.layers.push(gray);
        tree.layers.push(adj);
        let p = tree.pixel();
        assert!((p[0] as i32 - want).abs() <= slack, "{p:?}");
    }
}

#[test]
fn clipped_adjustment_only_touches_its_base_layer() {
    for (alpha, want) in [(255, 155), (0, 200)] {
        let mut tree = Tree::new();
        let bottom = tree.solid([200, 200, 200, 255]);
        let base = tree.solid([100, 100, 100, alpha]);
        let mut adj = tree.invert();
        adj.clipping = true;
        tree.layers.push(bottom);
        tree.layers.push(base);
        tree.layers.push(adj);
        assert_eq!(tree.pixel()[0], want);
    }
}

#[test]
fn adjustment_does_not_paint_on_transparency() {
    let mut tree = Tree::new();
    let empty = tree.make(None, LayerKind::Raster { blank: true });
    let adj = tree.invert();
    tree.layers.push(empty);
    tree.layers.push(adj);
    assert_eq!(tree.pixel()[3], 0, "still transparent");
}

#[test]
fn adjustment_inside_a_group_stays_in_the_group() {
    for (alpha, want) in [(255, 175), (0, 0)] {
        let mut tree = Tree::new();
        let bg = tree.solid([0, 0, 0, 255]);
        let inner = tree.solid([80, 80, 80, alpha]);
        let adj = tree.invert();
        let group = tree.make(None, LayerKind::Group(vec![inner, adj]));
        tree.layers.push(bg);
        tree.layers.push(group);
        assert_eq!(tree.pixel()[0], want);
    }
}

#[test]
fn a_group_that_passes_through_leaves_only_its_layers() {
    let mut tree = Tree::new();
    let inner = tree.solid([80, 80, 80, 255]);
    let mut group = tree.make(None, LayerKind::Group(vec![inner]));
    group.blend = BlendMode::PassThrough;
    let through = plan(&vec![group]);
    let lone = tree.solid([80, 80, 80, 255]);
    assert_eq!(through.len(), plan(&vec![lone]).len());
    // A mask, even one that is off, isolates it.
    let inner = tree.solid([80, 80, 80, 255]);
    let mut group = tree.make(None, LayerKind::Group(vec![inner]));
    group.blend = BlendMode::PassThrough;
    group.masked = true;
    let id = group.id;
    assert_eq!(
        plan(&vec![group]).last(),
        Some(&Step::Blend { layer: id, mode: BlendMode::Normal, fill: false, masked: false })
    );
}

#[test]
fn the_fast_paths_need_no_mask() {
    assert_eq!(blend_path(BlendMode::Multiply, false, false, true), BlendPath::Span);
    assert_eq!(blend_path(BlendMode::Normal, false, true, true), BlendPath::Over);
    assert_eq!(blend_path(BlendMode::Normal, false, false, true), BlendPath::Pixels);
    assert_eq!(blend_path(BlendMode::Multiply, true, true, true), BlendPath::Pixels);
    assert_eq!(blend_path(BlendMode::Hue, false, true, false), BlendPath::Pixels);
}

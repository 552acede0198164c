use crate::color::{blend_all, Color, ColorHSV};
use crate::fraction::Fraction;
use crate::frame::{
    frame_for_grid, frame_for_grid_par, frame_shows_interior, grid_frame, Frame, FrameView,
};
use crate::game_of_life::{dead, dead_border, layers_stay_alike, live_interior, Gol, GolView};
use crate::grid::{
    agree_inside, at, cell_at, col, flat, in_grid, interior, lemma_flat_row_col, lemma_grid, row,
    set_cell_at,
};
use crate::parallel::par_tabulate;
use vstd::prelude::*;

verus! {

/// Several automata of one size, evolving side by side, and the two colour fields
/// derived from them at every step.
pub struct MlGol {
    grid_size: usize,
    layers: Vec<Gol>,
    combined: Vec<Color>,
    dependent: Vec<Color>,
}

/// The mathematical content of an [`MlGol`]: the side of every grid, ghost border
/// included, the layers in order, and the two colour fields, each stored row by row.
pub struct MlGolView {
    pub grid_size: int,
    pub layers: Seq<GolView>,
    pub combined: Seq<Color>,
    pub dependent: Seq<Color>,
}

/// The contents of the layers, in order.
pub open spec fn layer_views(layers: Seq<Gol>) -> Seq<GolView> {
    Seq::new(layers.len(), |k: int| layers[k]@)
}

/// A colour field of `len` black cells.
pub open spec fn black_field(len: nat) -> Seq<Color> {
    Seq::new(len, |k: int| Color::black())
}

/// The contents of the frames, in order.
pub open spec fn frame_views(frames: Seq<Frame>) -> Seq<FrameView> {
    Seq::new(frames.len(), |k: int| frames[k]@)
}

/// The hue of layer `layer` out of `num_layers`: that share of the full circle, which
/// is `360 * layer / num_layers` degrees, at full saturation and value.
pub open spec fn layer_hue(layer: int, num_layers: int) -> ColorHSV {
    ColorHSV {
        h: Fraction { num: layer as u32, den: num_layers as u32 },
        s: Fraction { num: 1, den: 1 },
        v: Fraction { num: 1, den: 1 },
    }
}

/// The two states have grids of one size and as many layers, and layer by layer the
/// same interior.
pub open spec fn alike(a: MlGolView, b: MlGolView) -> bool {
    &&& a.grid_size == b.grid_size
    &&& a.layers.len() == b.layers.len()
    &&& forall|k: int|
        0 <= k < a.layers.len() ==> agree_inside(
            (#[trigger] a.layers[k]).current,
            b.layers[k].current,
            a.grid_size,
        )
}

/// A colour counts as lit when none of its channels is zero.
pub open spec fn is_lit(c: Color) -> bool {
    c.r > 0 && c.g > 0 && c.b > 0
}

/// 1 for a lit cell, 0 for any other.
pub open spec fn lit(g: Seq<Color>, size: int, i: int, j: int) -> int {
    if is_lit(at(g, size, i, j)) {
        1
    } else {
        0
    }
}

/// Number of lit cells among the eight cells around `(i, j)`.
pub open spec fn lit_neighbors(g: Seq<Color>, size: int, i: int, j: int) -> int {
    lit(g, size, i - 1, j - 1) + lit(g, size, i - 1, j) + lit(g, size, i - 1, j + 1) + lit(
        g,
        size,
        i,
        j - 1,
    ) + lit(g, size, i, j + 1) + lit(g, size, i + 1, j - 1) + lit(g, size, i + 1, j) + lit(
        g,
        size,
        i + 1,
        j + 1,
    )
}

/// The grey for `n` lit neighbours out of eight: every channel is `n / 8` of 255,
/// rounded down.
pub open spec fn gray(n: int) -> Color {
    Color { r: (n * 255 / 8) as u8, g: (n * 255 / 8) as u8, b: (n * 255 / 8) as u8 }
}

impl MlGolView {
    /// Every layer is well formed and as large as the two fields, and the sizes fit
    /// the machine: the interior extent a 32-bit image dimension, the image bytes and
    /// the number of layers their counters.
    pub open spec fn wf(self) -> bool {
        &&& 3 <= self.grid_size
        &&& self.grid_size - 2 <= u32::MAX
        &&& 4 * ((self.grid_size - 2) * (self.grid_size - 2)) <= usize::MAX
        &&& self.layers.len() <= u32::MAX
        &&& forall|k: int|
            0 <= k < self.layers.len() ==> (#[trigger] self.layers[k]).wf() && self.layers[k].size
                == self.grid_size
        &&& self.combined.len() == self.grid_size * self.grid_size
        &&& self.dependent.len() == self.grid_size * self.grid_size
    }

    /// The colour assigned to layer `k`.
    pub open spec fn layer_color(self, k: int) -> Color {
        layer_hue(k, self.layers.len() as int).rgb()
    }

    /// `base` with the colours of those of the first `upto` layers blended onto it, in
    /// layer order, that are alive at position `idx`.
    pub open spec fn blended(self, base: Color, upto: int, idx: int) -> Color
        decreases upto,
    {
        if upto <= 0 {
            base
        } else if self.layers[upto - 1].current[idx] {
            self.blended(base, upto - 1, idx).blend(self.layer_color(upto - 1))
        } else {
            self.blended(base, upto - 1, idx)
        }
    }

    /// The colours of those of the first `upto` layers, in layer order, that are alive
    /// at position `idx`.
    pub open spec fn alive_colors(self, upto: int, idx: int) -> Seq<Color>
        decreases upto,
    {
        if upto <= 0 {
            Seq::empty()
        } else if self.layers[upto - 1].current[idx] {
            self.alive_colors(upto - 1, idx).push(self.layer_color(upto - 1))
        } else {
            self.alive_colors(upto - 1, idx)
        }
    }

    /// Both fields are black.
    pub open spec fn is_clear(self) -> bool {
        &&& self.combined == black_field(self.combined.len())
        &&& self.dependent == black_field(self.dependent.len())
    }

    /// The state after the sequential compositing pass: every cell of `combined`, the
    /// border included, has the colours of the layers alive there blended onto what it
    /// held.
    pub open spec fn with_combined(self) -> MlGolView {
        MlGolView {
            combined: Seq::new(
                self.combined.len(),
                |idx: int| self.blended(self.combined[idx], self.layers.len() as int, idx),
            ),
            ..self
        }
    }

    /// The state after the parallel compositing pass: every cell of `combined`, the
    /// border included, is the blend of the colours of the layers alive there.
    pub open spec fn with_combined_par(self) -> MlGolView {
        MlGolView {
            combined: Seq::new(
                self.combined.len(),
                |idx: int| self.blended(Color::black(), self.layers.len() as int, idx),
            ),
            ..self
        }
    }

    /// The grey of the interior cell `(i, j)` of the dependent field.
    pub open spec fn density_gray(self, i: int, j: int) -> Color {
        gray(lit_neighbors(self.combined, self.grid_size, i, j))
    }

    /// The state after the sequential density pass: every interior cell of
    /// `dependent` is the grey for the lit cells around it in `combined`; border cells
    /// keep what they held.
    pub open spec fn with_dependent(self) -> MlGolView {
        MlGolView {
            dependent: Seq::new(
                self.dependent.len(),
                |k: int|
                    if interior(self.grid_size, row(self.grid_size, k), col(self.grid_size, k)) {
                        self.density_gray(row(self.grid_size, k), col(self.grid_size, k))
                    } else {
                        self.dependent[k]
                    },
            ),
            ..self
        }
    }

    /// What the parallel density pass stores at position `k`: the grey inside, black
    /// on the border.
    pub open spec fn dependent_par_cell(self, k: int) -> Color {
        if interior(self.grid_size, row(self.grid_size, k), col(self.grid_size, k)) {
            self.density_gray(row(self.grid_size, k), col(self.grid_size, k))
        } else {
            Color::black()
        }
    }

    /// The state after the parallel density pass: as [`MlGolView::with_dependent`],
    /// but with a black border.
    pub open spec fn with_dependent_par(self) -> MlGolView {
        MlGolView {
            dependent: Seq::new(self.dependent.len(), |k: int| self.dependent_par_cell(k)),
            ..self
        }
    }

    /// The state with both fields black.
    pub open spec fn cleared(self) -> MlGolView {
        MlGolView {
            combined: black_field(self.combined.len()),
            dependent: black_field(self.dependent.len()),
            ..self
        }
    }

    /// The state after every layer has filled its ghost cells and taken one
    /// sequential step.
    pub open spec fn with_layers_stepped(self) -> MlGolView {
        MlGolView {
            layers: Seq::new(self.layers.len(), |k: int| self.layers[k].ghost_filled().stepped()),
            ..self
        }
    }

    /// The state after every layer has filled its ghost cells and taken one parallel
    /// step.
    pub open spec fn with_layers_stepped_par(self) -> MlGolView {
        MlGolView {
            layers: Seq::new(
                self.layers.len(),
                |k: int| self.layers[k].ghost_filled().stepped_par(),
            ),
            ..self
        }
    }

    /// The state of a sequential step at the moment its frames are taken: the layers
    /// have stepped and both fields are computed.
    pub open spec fn computed(self) -> MlGolView {
        self.with_layers_stepped().with_combined().with_dependent()
    }

    /// The state of a parallel step at the moment its frames are taken.
    pub open spec fn computed_par(self) -> MlGolView {
        self.with_layers_stepped_par().with_combined_par().with_dependent_par()
    }

    /// The two frames of step `step`: the combined field, then the dependent field.
    pub open spec fn frames(self, step: nat) -> Seq<FrameView> {
        seq![
            grid_frame(self.combined, self.grid_size, step, "combined"@),
            grid_frame(self.dependent, self.grid_size, step, "dependent"@),
        ]
    }

    /// The state after `steps` whole sequential steps, each ending with both fields
    /// cleared.
    pub open spec fn after(self, steps: nat) -> MlGolView
        decreases steps,
    {
        if steps == 0 {
            self
        } else {
            self.after((steps - 1) as nat).computed().cleared()
        }
    }

    /// The state after `steps` whole parallel steps.
    pub open spec fn after_par(self, steps: nat) -> MlGolView
        decreases steps,
    {
        if steps == 0 {
            self
        } else {
            self.after_par((steps - 1) as nat).computed_par().cleared()
        }
    }

    /// The frames of the first `steps` sequential steps, two per step, numbered from
    /// zero.
    pub open spec fn frames_of(self, steps: nat) -> Seq<FrameView>
        decreases steps,
    {
        if steps == 0 {
            Seq::empty()
        } else {
            self.frames_of((steps - 1) as nat) + self.after((steps - 1) as nat).computed().frames(
                (steps - 1) as nat,
            )
        }
    }

    /// The frames of the first `steps` parallel steps.
    pub open spec fn frames_of_par(self, steps: nat) -> Seq<FrameView>
        decreases steps,
    {
        if steps == 0 {
            Seq::empty()
        } else {
            self.frames_of_par((steps - 1) as nat) + self.after_par(
                (steps - 1) as nat,
            ).computed_par().frames((steps - 1) as nat)
        }
    }
}

impl View for MlGol {
    type V = MlGolView;

    closed spec fn view(&self) -> MlGolView {
        MlGolView {
            grid_size: self.grid_size as int,
            layers: layer_views(self.layers@),
            combined: self.combined@,
            dependent: self.dependent@,
        }
    }
}

fn lit_count(c: Color) -> (n: u8)
    ensures
        n == (if is_lit(c) { 1int } else { 0int }),
{
    if c.r > 0 && c.g > 0 && c.b > 0 {
        1
    } else {
        0
    }
}

impl MlGol {
    /// The invariant every method keeps: see [`MlGolView::wf`].
    pub open spec fn wf(&self) -> bool {
        self@.wf()
    }

    /// A compositor of `num_layers` fresh automata with `grid_size` interior cells per
    /// side, each cell of each layer alive with probability `density`, and both fields
    /// black.
    pub fn new(grid_size: u32, num_layers: u32, density: Fraction) -> (game: MlGol)
        requires
            grid_size > 0,
            num_layers > 0,
            density.in_unit_interval(),
            (grid_size + 2) * (grid_size + 2) <= usize::MAX,
            4 * (grid_size * grid_size) <= usize::MAX,
        ensures
            game.wf(),
            game@.grid_size == grid_size + 2,
            game@.layers.len() == num_layers,
            game@.is_clear(),
            forall|k: int|
                0 <= k < num_layers ==> dead((#[trigger] game@.layers[k]).next) && dead_border(
                    game@.layers[k].current,
                    grid_size + 2,
                ),
            density.num == 0 ==> forall|k: int|
                0 <= k < num_layers ==> dead((#[trigger] game@.layers[k]).current),
            density.num == density.den ==> forall|k: int|
                0 <= k < num_layers ==> live_interior(
                    (#[trigger] game@.layers[k]).current,
                    grid_size + 2,
                ),
    {
        let mut layers: Vec<Gol> = Vec::new();

        for k in 0..num_layers
            invariant
                grid_size > 0,
                density.in_unit_interval(),
                (grid_size + 2) * (grid_size + 2) <= usize::MAX,
                layers@.len() == k,
                forall|m: int|
                    0 <= m < k ==> {
                        &&& (#[trigger] layers@[m]).wf()
                        &&& layers@[m]@.size == grid_size + 2
                        &&& dead(layers@[m]@.next)
                        &&& dead_border(layers@[m]@.current, grid_size + 2)
                        &&& density.num == 0 ==> dead(layers@[m]@.current)
                        &&& density.num == density.den ==> live_interior(
                            layers@[m]@.current,
                            grid_size + 2,
                        )
                    },
        {
            layers.push(Gol::new(grid_size as usize, density));
        }

        MlGol::from_layers(grid_size, layers)
    }

    /// A compositor of the given layers, in their order, with both fields black.
    pub fn from_layers(grid_size: u32, layers: Vec<Gol>) -> (game: MlGol)
        requires
            grid_size > 0,
            (grid_size + 2) * (grid_size + 2) <= usize::MAX,
            4 * (grid_size * grid_size) <= usize::MAX,
            layers@.len() <= u32::MAX,
            forall|k: int|
                0 <= k < layers@.len() ==> (#[trigger] layers@[k]).wf() && layers@[k]@.size
                    == grid_size + 2,
        ensures
            game.wf(),
            game@.grid_size == grid_size + 2,
            game@.layers == layer_views(layers@),
            game@.combined.len() == (grid_size + 2) * (grid_size + 2),
            game@.dependent.len() == (grid_size + 2) * (grid_size + 2),
            game@.is_clear(),
    {
        assert(grid_size + 2 <= (grid_size + 2) * (grid_size + 2)) by (nonlinear_arith);
        let size = grid_size as usize + 2;
        let mut combined: Vec<Color> = Vec::new();
        let mut dependent: Vec<Color> = Vec::new();

        // Initialize the combined and dependent grids with black color
        for n in 0..size * size
            invariant
                combined@ == black_field(n as nat),
                dependent@ == black_field(n as nat),
        {
            combined.push(Color { r: 0, g: 0, b: 0 });
            dependent.push(Color { r: 0, g: 0, b: 0 });
        }

        MlGol { grid_size: size, layers, combined, dependent }
    }

    /// Side length of every grid, ghost border included.
    pub fn grid_size(&self) -> (size: usize)
        ensures
            size == self@.grid_size,
    {
        self.grid_size
    }

    /// The layers, in order.
    pub fn layers(&self) -> (layers: &Vec<Gol>)
        ensures
            layer_views(layers@) == self@.layers,
    {
        &self.layers
    }

    /// The combined field, stored row by row.
    pub fn combined(&self) -> (combined: &Vec<Color>)
        ensures
            combined@ == self@.combined,
    {
        &self.combined
    }

    /// The dependent field, stored row by row.
    pub fn dependent(&self) -> (dependent: &Vec<Color>)
        ensures
            dependent@ == self@.dependent,
    {
        &self.dependent
    }

    /// The colour of layer `layer` out of `num_layers`: hues are spread evenly round
    /// the colour circle, starting with red for layer 0.
    pub fn color_for_layer(layer: usize, num_layers: usize) -> (color: Color)
        requires
            layer < num_layers <= u32::MAX,
        ensures
            color == layer_hue(layer as int, num_layers as int).rgb(),
    {
        let hsv_color = ColorHSV {
            h: Fraction { num: layer as u32, den: num_layers as u32 },
            s: Fraction { num: 1, den: 1 },
            v: Fraction { num: 1, den: 1 },
        };

        hsv_color.to_rgb()
    }

    /// Adds to every cell of `combined` the colours of the layers alive there. On a
    /// black field, as a reset leaves it, every cell becomes the blend of those
    /// colours, which is what [`MlGol::calculate_combined_par`] stores.
    pub fn calculate_combined(&mut self)
        requires
            old(self).wf(),
        ensures
            final(self).wf(),
            final(self)@ == old(self)@.with_combined(),
            old(self)@.combined == black_field(old(self)@.combined.len()) ==> final(self)@ == old(
                self,
            )@.with_combined_par(),
    {
        proof {
            if old(self)@.combined == black_field(old(self)@.combined.len()) {
                combined_variants_agree(old(self)@);
            }
        }
        let num_layers = self.layers.len();
        let len = self.combined.len();
        for k in 0..num_layers
            invariant
                self.wf(),
                self.grid_size == old(self).grid_size,
                self.layers@ == old(self).layers@,
                self.dependent@ == old(self).dependent@,
                num_layers == self.layers@.len(),
                len == self.combined@.len(),
                len == old(self).combined@.len(),
                forall|idx: int|
                    0 <= idx < len ==> self.combined@[idx] == old(self)@.blended(
                        old(self).combined@[idx],
                        k as int,
                        idx,
                    ),
        {
            let color = MlGol::color_for_layer(k, num_layers);

            for idx in 0..len
                invariant
                    self.wf(),
                    self.grid_size == old(self).grid_size,
                    self.layers@ == old(self).layers@,
                    self.dependent@ == old(self).dependent@,
                    num_layers == self.layers@.len(),
                    k < num_layers,
                    len == self.combined@.len(),
                    len == old(self).combined@.len(),
                    color == old(self)@.layer_color(k as int),
                    forall|at_or_after: int|
                        idx <= at_or_after < len ==> self.combined@[at_or_after] == old(
                            self,
                        )@.blended(old(self).combined@[at_or_after], k as int, at_or_after),
                    forall|before: int|
                        0 <= before < idx ==> self.combined@[before] == old(self)@.blended(
                            old(self).combined@[before],
                            k + 1,
                            before,
                        ),
            {
                assert(self@.layers[k as int].wf());
                if self.layers[k].current[idx] {
                    let sum = Color::add_colors(&self.combined[idx], &color);
                    self.combined.set(idx, sum);
                }
            }
        }
        assert(self.combined@ =~= old(self)@.with_combined().combined);
    }

    /// The blend of the colours of the layers alive at position `idx`.
    pub fn cell_color(&self, idx: usize) -> (color: Color)
        requires
            self.wf(),
            idx < self@.combined.len(),
        ensures
            color == self@.blended(Color::black(), self@.layers.len() as int, idx as int),
    {
        let num_layers = self.layers.len();
        let mut color = Color { r: 0, g: 0, b: 0 };

        for k in 0..num_layers
            invariant
                self.wf(),
                num_layers == self.layers@.len(),
                idx < self@.combined.len(),
                color == self@.blended(Color::black(), k as int, idx as int),
        {
            assert(self@.layers[k as int].wf());
            let layer_color = MlGol::color_for_layer(k, num_layers);

            if self.layers[k].current[idx] {
                color = Color::add_colors(&color, &layer_color);
            }
        }

        color
    }

    /// Computes every cell of `combined` independently, in parallel, as the blend of
    /// the colours of the layers alive there.
    pub fn calculate_combined_par(&mut self)
        requires
            old(self).wf(),
        ensures
            final(self).wf(),
            final(self)@ == old(self)@.with_combined_par(),
    {
        let len = self.combined.len();
        let game: &MlGol = &*self;
        let fresh = par_tabulate(len, |idx: usize| -> (color: Color)
            requires
                idx < len,
            ensures
                color == game@.blended(Color::black(), game@.layers.len() as int, idx as int),
        {
            game.cell_color(idx)
        });
        assert(fresh@ =~= old(self)@.with_combined_par().combined);
        self.combined = fresh;
    }

    /// Counts the lit cells among the eight cells around the interior cell `(i, j)`
    /// of `combined`.
    pub fn count_dependent_alive_neighbors(&self, i: usize, j: usize) -> (count: u8)
        requires
            self.wf(),
            interior(self@.grid_size, i as int, j as int),
        ensures
            count == lit_neighbors(self@.combined, self@.grid_size, i as int, j as int),
    {
        let size = self.grid_size;
        lit_count(cell_at(&self.combined, size, i - 1, j - 1)) + lit_count(
            cell_at(&self.combined, size, i - 1, j),
        ) + lit_count(cell_at(&self.combined, size, i - 1, j + 1)) + lit_count(
            cell_at(&self.combined, size, i, j - 1),
        ) + lit_count(cell_at(&self.combined, size, i, j + 1)) + lit_count(
            cell_at(&self.combined, size, i + 1, j - 1),
        ) + lit_count(cell_at(&self.combined, size, i + 1, j)) + lit_count(
            cell_at(&self.combined, size, i + 1, j + 1),
        )
    }

    /// The grey for `alive_neighbors` lit cells out of eight.
    pub fn density_color(alive_neighbors: u8) -> (color: Color)
        requires
            alive_neighbors <= 8,
        ensures
            color == gray(alive_neighbors as int),
    {
        let channel_value = (alive_neighbors as u16 * 255 / 8) as u8;
        Color { r: channel_value, g: channel_value, b: channel_value }
    }

    /// Sets every interior cell of `dependent` to the grey for the lit cells around it
    /// in `combined`; border cells keep what they held. Where the border was black,
    /// as a reset leaves it, the result is what [`MlGol::calculate_dependent_par`]
    /// stores.
    pub fn calculate_dependent(&mut self)
        requires
            old(self).wf(),
        ensures
            final(self).wf(),
            final(self)@ == old(self)@.with_dependent(),
            old(self)@.dependent == black_field(old(self)@.dependent.len()) ==> final(self)@
                == old(self)@.with_dependent_par(),
    {
        proof {
            if old(self)@.dependent == black_field(old(self)@.dependent.len()) {
                lemma_grid(old(self)@.grid_size);
                dependent_variants_agree(old(self)@);
            }
        }
        let size = self.grid_size;
        for i in 1..size - 1
            invariant
                self.wf(),
                self.grid_size == size,
                old(self).grid_size == size,
                self.layers@ == old(self).layers@,
                self.combined@ == old(self).combined@,
                forall|r: int, c: int|
                    in_grid(size as int, r, c) ==> #[trigger] at(self.dependent@, size as int, r, c)
                        == (if interior(size as int, r, c) && r < i {
                        old(self)@.density_gray(r, c)
                    } else {
                        at(old(self).dependent@, size as int, r, c)
                    }),
        {
            for j in 1..size - 1
                invariant
                    self.wf(),
                    self.grid_size == size,
                    old(self).grid_size == size,
                    1 <= i < size - 1,
                    self.layers@ == old(self).layers@,
                    self.combined@ == old(self).combined@,
                    forall|r: int, c: int|
                        in_grid(size as int, r, c) ==> #[trigger] at(
                            self.dependent@,
                            size as int,
                            r,
                            c,
                        ) == (if interior(size as int, r, c) && (r < i || (r == i && c < j)) {
                            old(self)@.density_gray(r, c)
                        } else {
                            at(old(self).dependent@, size as int, r, c)
                        }),
            {
                let alive_neighbors = self.count_dependent_alive_neighbors(i, j);
                let color = MlGol::density_color(alive_neighbors);
                set_cell_at(&mut self.dependent, size, i, j, color);
            }
        }
        proof {
            lemma_grid(size as int);
            assert forall|k: int| 0 <= k < self.dependent@.len() implies self.dependent@[k] == old(
                self,
            )@.with_dependent().dependent[k] by {
                let r = row(size as int, k);
                let c = col(size as int, k);
                assert(self.dependent@[k] == at(self.dependent@, size as int, r, c));
            }
            assert(self.dependent@ =~= old(self)@.with_dependent().dependent);
        }
    }

    /// What the parallel density pass stores at position `k`.
    pub fn dependent_cell(&self, k: usize) -> (color: Color)
        requires
            self.wf(),
            k < self@.dependent.len(),
        ensures
            color == self@.dependent_par_cell(k as int),
    {
        let size = self.grid_size;
        proof {
            lemma_grid(size as int);
        }
        let point = Gol::point(size, k);
        if point.x == 0 || point.x == size - 1 || point.y == 0 || point.y == size - 1 {
            return Color { r: 0, g: 0, b: 0 };
        }
        let alive_neighbors = self.count_dependent_alive_neighbors(point.x, point.y);
        MlGol::density_color(alive_neighbors)
    }

    /// Computes every cell of `dependent` independently, in parallel: the grey for the
    /// lit cells around it inside, black on the border.
    pub fn calculate_dependent_par(&mut self)
        requires
            old(self).wf(),
        ensures
            final(self).wf(),
            final(self)@ == old(self)@.with_dependent_par(),
    {
        let len = self.dependent.len();
        let game: &MlGol = &*self;
        let fresh = par_tabulate(len, |k: usize| -> (color: Color)
            requires
                k < len,
            ensures
                color == game@.dependent_par_cell(k as int),
        {
            game.dependent_cell(k)
        });
        assert(fresh@ =~= old(self)@.with_dependent_par().dependent);
        self.dependent = fresh;
    }

    /// Makes every cell of both fields black.
    pub fn reset_combined_and_dependent(&mut self)
        requires
            old(self).wf(),
        ensures
            final(self).wf(),
            final(self)@ == old(self)@.cleared(),
    {
        let len = self.combined.len();
        for i in 0..len
            invariant
                self.wf(),
                self.grid_size == old(self).grid_size,
                self.layers@ == old(self).layers@,
                len == self.combined@.len(),
                len == old(self).combined@.len(),
                forall|k: int| 0 <= k < i ==> self.combined@[k] == Color::black(),
                forall|k: int| 0 <= k < i ==> self.dependent@[k] == Color::black(),
        {
            self.combined.set(i, Color { r: 0, g: 0, b: 0 });
            self.dependent.set(i, Color { r: 0, g: 0, b: 0 });
        }
        assert(self.combined@ =~= old(self)@.cleared().combined);
        assert(self.dependent@ =~= old(self)@.cleared().dependent);
    }

    /// Makes every cell of both fields black, in parallel.
    pub fn reset_combined_and_dependent_par(&mut self)
        requires
            old(self).wf(),
        ensures
            final(self).wf(),
            final(self)@ == old(self)@.cleared(),
    {
        let combined = par_tabulate(self.combined.len(), |k: usize| -> (color: Color)
            ensures
                color == Color::black(),
        {
            Color { r: 0, g: 0, b: 0 }
        });
        let dependent = par_tabulate(self.dependent.len(), |k: usize| -> (color: Color)
            ensures
                color == Color::black(),
        {
            Color { r: 0, g: 0, b: 0 }
        });
        assert(combined@ =~= old(self)@.cleared().combined);
        assert(dependent@ =~= old(self)@.cleared().dependent);
        self.combined = combined;
        self.dependent = dependent;
    }

    /// Renders both fields as the frames of step `step` and appends them to `frames`:
    /// the combined field first, then the dependent field.
    fn create_frames_for_step(&self, step: usize, frames: &mut Vec<Frame>)
        requires
            self.wf(),
        ensures
            frame_views(final(frames)@) == frame_views(old(frames)@) + self@.frames(step as nat),
    {
        let combined = frame_for_grid(&self.combined, self.grid_size, step, "combined");
        let dependent = frame_for_grid(&self.dependent, self.grid_size, step, "dependent");
        frames.push(combined);
        frames.push(dependent);
    }

    /// As [`MlGol::create_frames_for_step`], each frame rendered in parallel.
    fn create_frames_for_step_par(&self, step: usize, frames: &mut Vec<Frame>)
        requires
            self.wf(),
        ensures
            frame_views(final(frames)@) == frame_views(old(frames)@) + self@.frames(step as nat),
    {
        let combined = frame_for_grid_par(&self.combined, self.grid_size, step, "combined");
        let dependent = frame_for_grid_par(&self.dependent, self.grid_size, step, "dependent");
        frames.push(combined);
        frames.push(dependent);
    }

    /// Lets every layer fill its ghost cells and take one sequential step.
    fn step_layers(&mut self)
        requires
            old(self).wf(),
        ensures
            final(self).wf(),
            final(self)@ == old(self)@.with_layers_stepped(),
    {
        let num_layers = self.layers.len();
        for k in 0..num_layers
            invariant
                self.wf(),
                self.grid_size == old(self).grid_size,
                self.combined@ == old(self).combined@,
                self.dependent@ == old(self).dependent@,
                num_layers == self.layers@.len(),
                num_layers == old(self).layers@.len(),
                forall|m: int|
                    0 <= m < k ==> (#[trigger] self.layers@[m])@ == old(
                        self,
                    ).layers@[m]@.ghost_filled().stepped(),
                forall|m: int| k <= m < num_layers ==> self.layers@[m] == old(self).layers@[m],
        {
            let ghost before = self@;
            assert(before.layers[k as int].wf());
            self.layers[k].fill_ghost_cells();
            self.layers[k].step();
            assert forall|m: int| 0 <= m < num_layers implies (#[trigger] self@.layers[m]).wf()
                && self@.layers[m].size == self@.grid_size by {
                if m != k {
                    assert(self@.layers[m] == before.layers[m]);
                }
            }
        }
        assert(self@.layers =~= old(self)@.with_layers_stepped().layers);
    }

    /// Runs `num_steps` steps one after another: every layer wraps its border and
    /// evolves, the two fields are computed and rendered, and the fields are cleared.
    /// Returns the frames in the order they are to be written.
    pub fn start_game(&mut self, num_steps: usize) -> (frames: Vec<Frame>)
        requires
            old(self).wf(),
        ensures
            final(self).wf(),
            final(self)@ == old(self)@.after(num_steps as nat),
            frame_views(frames@) == old(self)@.frames_of(num_steps as nat),
            frames@.len() == 2 * num_steps,
    {
        proof {
            lemma_two_frames_a_step(old(self)@, num_steps as nat);
        }
        let mut frames: Vec<Frame> = Vec::new();
        for step in 0..num_steps
            invariant
                self.wf(),
                self@ == old(self)@.after(step as nat),
                frame_views(frames@) == old(self)@.frames_of(step as nat),
        {
            self.step_layers();

            self.calculate_combined();
            self.calculate_dependent();

            self.create_frames_for_step(step, &mut frames);
            self.reset_combined_and_dependent();
        }
        frames
    }

    /// Lets every layer fill its ghost cells and take one parallel step.
    fn step_layers_par(&mut self)
        requires
            old(self).wf(),
        ensures
            final(self).wf(),
            final(self)@ == old(self)@.with_layers_stepped_par(),
    {
        let num_layers = self.layers.len();
        for k in 0..num_layers
            invariant
                self.wf(),
                self.grid_size == old(self).grid_size,
                self.combined@ == old(self).combined@,
                self.dependent@ == old(self).dependent@,
                num_layers == self.layers@.len(),
                num_layers == old(self).layers@.len(),
                forall|m: int|
                    0 <= m < k ==> (#[trigger] self.layers@[m])@ == old(
                        self,
                    ).layers@[m]@.ghost_filled().stepped_par(),
                forall|m: int| k <= m < num_layers ==> self.layers@[m] == old(self).layers@[m],
        {
            let ghost before = self@;
            assert(before.layers[k as int].wf());
            self.layers[k].fill_ghost_cells();
            self.layers[k].step_par();
            assert forall|m: int| 0 <= m < num_layers implies (#[trigger] self@.layers[m]).wf()
                && self@.layers[m].size == self@.grid_size by {
                if m != k {
                    assert(self@.layers[m] == before.layers[m]);
                }
            }
        }
        assert(self@.layers =~= old(self)@.with_layers_stepped_par().layers);
    }

    /// As [`MlGol::start_game`], with every pass of a step computed in parallel.
    pub fn start_game_par(&mut self, num_steps: usize) -> (frames: Vec<Frame>)
        requires
            old(self).wf(),
        ensures
            final(self).wf(),
            final(self)@ == old(self)@.after_par(num_steps as nat),
            frame_views(frames@) == old(self)@.frames_of_par(num_steps as nat),
            frames@.len() == 2 * num_steps,
    {
        proof {
            lemma_two_frames_a_step(old(self)@, num_steps as nat);
        }
        let mut frames: Vec<Frame> = Vec::new();
        for step in 0..num_steps
            invariant
                self.wf(),
                self@ == old(self)@.after_par(step as nat),
                frame_views(frames@) == old(self)@.frames_of_par(step as nat),
        {
            self.step_layers_par();

            self.calculate_combined_par();
            self.calculate_dependent_par();

            self.create_frames_for_step_par(step, &mut frames);
            self.reset_combined_and_dependent_par();
        }
        frames
    }
}

/// A game renders two frames at every step.
pub proof fn lemma_two_frames_a_step(w: MlGolView, steps: nat)
    ensures
        w.frames_of(steps).len() == 2 * steps,
        w.frames_of_par(steps).len() == 2 * steps,
    decreases steps,
{
    if steps > 0 {
        lemma_two_frames_a_step(w, (steps - 1) as nat);
    }
}

/// What compositing stores in a cell that was black is the blend, in layer order, of
/// the colours of the layers alive there; by [`crate::color::blend_ignores_order`] any
/// other order of the same colours gives the same cell.
pub proof fn combined_cell_is_blend_of_alive_layers(w: MlGolView, upto: int, idx: int)
    ensures
        w.blended(Color::black(), upto, idx) == blend_all(w.alive_colors(upto, idx)),
    decreases upto,
{
    if upto > 0 {
        combined_cell_is_blend_of_alive_layers(w, upto - 1, idx);
        if w.layers[upto - 1].current[idx] {
            let colors = w.alive_colors(upto - 1, idx);
            assert(colors.push(w.layer_color(upto - 1)).drop_last() =~= colors);
        }
    }
}

/// On a black combined field the sequential and the parallel compositing pass store
/// the same colours.
pub proof fn combined_variants_agree(w: MlGolView)
    requires
        w.combined == black_field(w.combined.len()),
    ensures
        w.with_combined() == w.with_combined_par(),
{
    assert(w.with_combined().combined =~= w.with_combined_par().combined);
}

/// The sequential and the parallel density pass store the same grey in every interior
/// cell. They differ only on the border, which the sequential pass leaves as it was:
/// where that border was black, the two results are equal.
pub proof fn dependent_variants_agree(w: MlGolView)
    requires
        w.wf(),
    ensures
        forall|i: int, j: int|
            interior(w.grid_size, i, j) ==> #[trigger] at(
                w.with_dependent().dependent,
                w.grid_size,
                i,
                j,
            ) == at(w.with_dependent_par().dependent, w.grid_size, i, j),
        (forall|i: int, j: int|
            in_grid(w.grid_size, i, j) && !interior(w.grid_size, i, j) ==> #[trigger] at(
                w.dependent,
                w.grid_size,
                i,
                j,
            ) == Color::black()) ==> w.with_dependent() == w.with_dependent_par(),
{
    let size = w.grid_size;
    lemma_grid(size);
    if forall|i: int, j: int|
        in_grid(size, i, j) && !interior(size, i, j) ==> #[trigger] at(w.dependent, size, i, j)
            == Color::black() {
        assert forall|k: int| 0 <= k < w.dependent.len() implies w.with_dependent().dependent[k]
            == w.with_dependent_par().dependent[k] by {
            let r = row(size, k);
            let c = col(size, k);
            if !interior(size, r, c) {
                assert(at(w.dependent, size, r, c) == Color::black());
            }
        }
        assert(w.with_dependent().dependent =~= w.with_dependent_par().dependent);
    }
}

/// After a reset every cell of both fields is black, and a second reset changes
/// nothing.
pub proof fn reset_blackens(w: MlGolView)
    ensures
        forall|k: int| 0 <= k < w.combined.len() ==> w.cleared().combined[k] == Color::black(),
        forall|k: int| 0 <= k < w.dependent.len() ==> w.cleared().dependent[k] == Color::black(),
        w.cleared().is_clear(),
        w.cleared().cleared() == w.cleared(),
{
}

/// Every pass keeps a well-formed state well formed.
pub proof fn lemma_passes_keep_wf(w: MlGolView)
    requires
        w.wf(),
    ensures
        w.with_layers_stepped().wf(),
        w.with_layers_stepped_par().wf(),
        w.with_combined().wf(),
        w.with_combined_par().wf(),
        w.with_dependent().wf(),
        w.with_dependent_par().wf(),
        w.cleared().wf(),
{
    let seq = w.with_layers_stepped();
    let par = w.with_layers_stepped_par();
    assert forall|k: int| 0 <= k < w.layers.len() implies (#[trigger] seq.layers[k]).wf()
        && seq.layers[k].size == w.grid_size by {
        assert(w.layers[k].wf());
    }
    assert forall|k: int| 0 <= k < w.layers.len() implies (#[trigger] par.layers[k]).wf()
        && par.layers[k].size == w.grid_size by {
        assert(w.layers[k].wf());
    }
}

/// A game keeps a well-formed state well formed, and leaves both fields black after
/// every step.
pub proof fn lemma_games_keep_wf(w: MlGolView, t: nat)
    requires
        w.wf(),
    ensures
        w.after(t).wf(),
        w.after_par(t).wf(),
        w.after(t).grid_size == w.grid_size,
        w.after_par(t).grid_size == w.grid_size,
        w.after(t).layers.len() == w.layers.len(),
        w.after_par(t).layers.len() == w.layers.len(),
        t > 0 ==> w.after(t).is_clear() && w.after_par(t).is_clear(),
    decreases t,
{
    if t > 0 {
        let seq = w.after((t - 1) as nat);
        let par = w.after_par((t - 1) as nat);
        lemma_games_keep_wf(w, (t - 1) as nat);
        lemma_passes_keep_wf(seq);
        lemma_passes_keep_wf(seq.with_layers_stepped());
        lemma_passes_keep_wf(seq.with_layers_stepped().with_combined());
        lemma_passes_keep_wf(seq.computed());
        lemma_passes_keep_wf(par);
        lemma_passes_keep_wf(par.with_layers_stepped_par());
        lemma_passes_keep_wf(par.with_layers_stepped_par().with_combined_par());
        lemma_passes_keep_wf(par.computed_par());
    }
}

/// States that are alike are alike again once their layers have stepped, the one
/// sequentially and the other in parallel.
pub proof fn lemma_steps_keep_alike(a: MlGolView, b: MlGolView)
    requires
        a.wf(),
        b.wf(),
        alike(a, b),
    ensures
        alike(a.with_layers_stepped(), b.with_layers_stepped_par()),
{
    let a1 = a.with_layers_stepped();
    let b1 = b.with_layers_stepped_par();
    assert forall|k: int| 0 <= k < a1.layers.len() implies agree_inside(
        (#[trigger] a1.layers[k]).current,
        b1.layers[k].current,
        a1.grid_size,
    ) by {
        layers_stay_alike(a.layers[k], b.layers[k]);
    }
}

/// In states that are alike the layers alive at an interior cell blend to the same
/// colour.
pub proof fn lemma_alike_blend_alike(a: MlGolView, b: MlGolView, upto: int, i: int, j: int)
    requires
        alike(a, b),
        interior(a.grid_size, i, j),
        upto <= a.layers.len(),
    ensures
        a.blended(Color::black(), upto, flat(a.grid_size, i, j)) == b.blended(
            Color::black(),
            upto,
            flat(a.grid_size, i, j),
        ),
    decreases upto,
{
    if upto > 0 {
        lemma_alike_blend_alike(a, b, upto - 1, i, j);
        assert(at(a.layers[upto - 1].current, a.grid_size, i, j) == at(
            b.layers[upto - 1].current,
            a.grid_size,
            i,
            j,
        ));
    }
}

/// The sequential and the parallel game, started from one state with a black combined
/// field, keep the same interior in every layer and show the same combined frame at
/// every step. (Their dependent frames may differ next to the border, where the
/// sequential step leaves ghost cells of an earlier generation.)
pub proof fn games_agree(w: MlGolView, t: nat)
    requires
        w.wf(),
        w.combined == black_field(w.combined.len()),
    ensures
        alike(w.after(t), w.after_par(t)),
        agree_inside(
            w.after(t).computed().combined,
            w.after_par(t).computed_par().combined,
            w.grid_size,
        ),
        w.after(t).computed().frames(t)[0] == w.after_par(t).computed_par().frames(t)[0],
    decreases t,
{
    let seq = w.after(t);
    let par = w.after_par(t);
    lemma_games_keep_wf(w, t);
    if t > 0 {
        let seq_before = w.after((t - 1) as nat);
        let par_before = w.after_par((t - 1) as nat);
        games_agree(w, (t - 1) as nat);
        lemma_games_keep_wf(w, (t - 1) as nat);
        lemma_steps_keep_alike(seq_before, par_before);
    }

    let seq_stepped = seq.with_layers_stepped();
    let par_stepped = par.with_layers_stepped_par();
    lemma_steps_keep_alike(seq, par);
    let size = w.grid_size;
    lemma_grid(size);
    assert forall|i: int, j: int| interior(size, i, j) implies #[trigger] at(
        seq.computed().combined,
        size,
        i,
        j,
    ) == at(par.computed_par().combined, size, i, j) by {
        lemma_flat_row_col(size, i, j);
        lemma_alike_blend_alike(seq_stepped, par_stepped, seq_stepped.layers.len() as int, i, j);
    }
    frame_shows_interior(
        seq.computed().combined,
        par.computed_par().combined,
        size,
        t,
        "combined"@,
    );
}

/// The two games store the same grey in every cell of the dependent field that has
/// no ghost cell beside it.
pub proof fn games_agree_on_inner_density(w: MlGolView, t: nat, i: int, j: int)
    requires
        w.wf(),
        w.combined == black_field(w.combined.len()),
        2 <= i < w.grid_size - 2,
        2 <= j < w.grid_size - 2,
    ensures
        at(w.after(t).computed().dependent, w.grid_size, i, j) == at(
            w.after_par(t).computed_par().dependent,
            w.grid_size,
            i,
            j,
        ),
{
    let size = w.grid_size;
    let seq = w.after(t).computed();
    let par = w.after_par(t).computed_par();
    games_agree(w, t);
    lemma_games_keep_wf(w, t);
    lemma_passes_keep_wf(w.after(t));
    lemma_passes_keep_wf(w.after(t).with_layers_stepped());
    lemma_passes_keep_wf(w.after_par(t));
    lemma_passes_keep_wf(w.after_par(t).with_layers_stepped_par());
    lemma_flat_row_col(size, i, j);
    assert(lit_neighbors(seq.combined, size, i, j) == lit_neighbors(par.combined, size, i, j));
}

} // verus!

use vstd::prelude::*;

pub mod adjacency_map;
pub mod adjacency_rules;
pub mod domain;
pub mod entropy;
pub mod point;
pub mod preprocessor;
pub mod rng;
pub mod simple_patterns;
pub mod tile;
pub mod utils;
pub mod wfc;

use crate::point::Loc;

verus! {

/// Dimensions of the output grid, in cells.
#[derive(Clone, Copy, Debug, PartialEq, Eq, Structural)]
pub struct Grid {
    pub width: usize,
    pub height: usize,
}

impl Grid {
    /// Number of cells in the grid.
    pub fn area(&self) -> (r: usize)
        requires
            self.width * self.height <= usize::MAX,
        ensures
            r == self.width * self.height,
    {
        proof {
            assert(self.width * self.height >= 0) by (nonlinear_arith);
        }
        self.width * self.height
    }

    /// Every location of the grid, in row-major order.
    pub fn iter_locs(&self) -> (r: Vec<Loc>)
        requires
            self.width * self.height <= usize::MAX,
        ensures
            r@.len() == self.width * self.height,
            forall|k: int|
                0 <= k < r@.len() ==> (#[trigger] r@[k]) == (Loc {
                    x: (k % self.width as int) as usize,
                    y: (k / self.width as int) as usize,
                }),
    {
        let mut r: Vec<Loc> = Vec::new();
        let w = self.width;
        let h = self.height;
        if w == 0 {
            proof {
                assert(w * h == 0) by (nonlinear_arith)
                    requires
                        w == 0,
                ;
            }
            return r;
        }
        let mut y: usize = 0;
        while y < h
            invariant
                0 < w,
                w * h <= usize::MAX,
                y <= h,
                r@.len() == y * w,
                forall|k: int|
                    0 <= k < r@.len() ==> (#[trigger] r@[k]) == (Loc {
                        x: (k % w as int) as usize,
                        y: (k / w as int) as usize,
                    }),
            decreases h - y,
        {
            let mut x: usize = 0;
            proof {
                assert((y + 1) * w <= h * w) by (nonlinear_arith)
                    requires
                        y + 1 <= h,
                        w >= 0,
                ;
                assert(h * w == w * h) by (nonlinear_arith);
                assert(y * w <= (y + 1) * w && (y + 1) * w == y * w + w) by (nonlinear_arith)
                    requires
                        w >= 0,
                ;
            }
            while x < w
                invariant
                    0 < w,
                    w * h <= usize::MAX,
                    y < h,
                    x <= w,
                    (y + 1) * w <= w * h,
                    y * w + x <= (y + 1) * w,
                    r@.len() == y * w + x,
                    forall|k: int|
                        0 <= k < r@.len() ==> (#[trigger] r@[k]) == (Loc {
                            x: (k % w as int) as usize,
                            y: (k / w as int) as usize,
                        }),
                decreases w - x,
            {
                proof {
                    assert(y * w + (x + 1) <= (y + 1) * w) by (nonlinear_arith)
                        requires
                            x + 1 <= w,
                        ;
                    vstd::arithmetic::div_mod::lemma_fundamental_div_mod_converse(
                        (y * w + x) as int,
                        w as int,
                        y as int,
                        x as int,
                    );
                }
                r.push(Loc { x, y });
                x = x + 1;
            }
            proof {
                assert((y + 1) * w == y * w + w) by (nonlinear_arith);
            }
            y = y + 1;
        }
        proof {
            assert(h * w == w * h) by (nonlinear_arith);
        }
        r
    }
}

/// What a driver loop should do once the board is fully collapsed.
#[derive(Clone, Copy, Debug, PartialEq, Eq, Structural)]
pub enum CompletionBehavior {
    KeepRunning,
    StopWhenCompleted,
}

/// How a `Wfc` was given its tile set.
#[derive(Clone, Copy, Debug, PartialEq, Eq, Structural)]
pub enum CreationMode {
    FromImage,
    FromPatterns,
    Unknown,
}

/// Builder tying together a tile source (an image to preprocess, or
/// ready-made patterns with rules), the output dimensions, and the solver.
pub struct Wfc {
    pub creation_mode: CreationMode,
    pub image: Option<crate::preprocessor::Image>,
    pub processor_config: Option<crate::preprocessor::ProcessorConfig>,
    pub wfc_data: Option<crate::preprocessor::WfcData>,
    pub output_dims: Option<Grid>,
    pub tile_size: usize,
    pub pixel_scale: u32,
}

impl Wfc {
    /// Whether this builder can produce a model.
    pub open spec fn ready(&self) -> bool {
        &&& self.tile_size >= 1
        &&& self.output_dims matches Some(dims) && dims.width * dims.height <= usize::MAX
        &&& match self.creation_mode {
            CreationMode::FromImage => {
                &&& self.image matches Some(img) && img.wf() && (img.width as int
                    / self.tile_size as int) * (img.height as int / self.tile_size as int) >= 2
                &&& self.processor_config is Some
            },
            CreationMode::FromPatterns => self.wfc_data matches Some(d) && d.wf(),
            CreationMode::Unknown => false,
        }
    }

    fn setup() -> (r: Wfc)
        ensures
            r.tile_size == 2,
            r.pixel_scale == 2,
            r.creation_mode is Unknown,
            r.wfc_data is None,
            r.output_dims is None,
            r.image is None,
            r.processor_config is None,
    {
        Wfc {
            creation_mode: CreationMode::Unknown,
            image: None,
            processor_config: None,
            wfc_data: None,
            output_dims: None,
            tile_size: 2,
            pixel_scale: 2,
        }
    }

    /// A builder that will preprocess the given image.
    pub fn new_from_image(image: crate::preprocessor::Image) -> (r: Wfc)
        ensures
            r.tile_size == 2,
            r.image == Some(image),
            r.creation_mode is FromImage,
            r.processor_config is Some,
            r.output_dims is None,
    {
        let mut this = Wfc::setup();
        this.image = Some(image);
        this.creation_mode = CreationMode::FromImage;
        this.processor_config = Some(crate::preprocessor::ProcessorConfig::default());
        this
    }

    /// A builder over ready-made tile data.
    pub fn new_from_patterns(wfcdata: crate::preprocessor::WfcData) -> (r: Wfc)
        ensures
            r.tile_size == 2,
            r.wfc_data == Some(wfcdata),
            r.creation_mode is FromPatterns,
            r.output_dims is None,
    {
        let mut this = Wfc::setup();
        this.wfc_data = Some(wfcdata);
        this.creation_mode = CreationMode::FromPatterns;
        this
    }

    /// Sets the output size, in pixels.
    pub fn with_output_dimensions(self, x: usize, y: usize) -> (r: Wfc)
        requires
            x * y <= usize::MAX,
        ensures
            r == (Wfc { output_dims: Some(Grid { width: x, height: y }), ..self }),
    {
        Wfc { output_dims: Some(Grid { width: x, height: y }), ..self }
    }

    /// Sets the tile size, in pixels; zero is rejected, and stored
    /// patterns must hold one pixel per tile coordinate.
    pub fn with_tile_size(self, tile_size: usize) -> (r: Wfc)
        requires
            tile_size >= 1,
            self.wfc_data matches Some(d) ==> forall|k: int|
                0 <= k < d.patterns@.len() ==> (#[trigger] d.patterns@[k])@.len() == tile_size
                    * tile_size,
        ensures
            r == (Wfc { tile_size, ..self }),
    {
        Wfc { tile_size, ..self }
    }

    /// Lets preprocessing wrap around the image edges.  (This is the one
    /// option the tiled extractor reads.)
    pub fn wrap(self) -> (r: Wfc)
        requires
            self.processor_config is Some,
        ensures
            r.processor_config matches Some(c) && c.wrap,
            r == (Wfc { processor_config: r.processor_config, ..self }),
            r.ready() == self.ready(),
    {
        let c = match self.processor_config {
            Some(c) => c,
            None => crate::preprocessor::ProcessorConfig::default(),
        };
        Wfc {
            processor_config: Some(
                crate::preprocessor::ProcessorConfig { wrap: true, ..c },
            ),
            ..self
        }
    }

    /// Records a request for Wang-style edge matching; the tiled extractor
    /// of this crate does not read it.
    pub fn wang(self) -> (r: Wfc)
        requires
            self.processor_config is Some,
        ensures
            r.processor_config matches Some(c) && c.wang,
            r == (Wfc { processor_config: r.processor_config, ..self }),
            r.ready() == self.ready(),
    {
        let c = match self.processor_config {
            Some(c) => c,
            None => crate::preprocessor::ProcessorConfig::default(),
        };
        Wfc {
            processor_config: Some(
                crate::preprocessor::ProcessorConfig { wang: true, ..c },
            ),
            ..self
        }
    }

    /// Records a request for flipped Wang-style edge matching; the tiled
    /// extractor of this crate does not read it.
    pub fn wang_flip(self) -> (r: Wfc)
        requires
            self.processor_config is Some,
        ensures
            r.processor_config matches Some(c) && c.wang_flip,
            r == (Wfc { processor_config: r.processor_config, ..self }),
            r.ready() == self.ready(),
    {
        let c = match self.processor_config {
            Some(c) => c,
            None => crate::preprocessor::ProcessorConfig::default(),
        };
        Wfc {
            processor_config: Some(
                crate::preprocessor::ProcessorConfig { wang_flip: true, ..c },
            ),
            ..self
        }
    }

    /// Sets how many screen pixels one image pixel covers when shown.
    pub fn with_pixel_scale(self, pixel_scale: u32) -> (r: Wfc)
        ensures
            r == (Wfc { pixel_scale, ..self }),
    {
        Wfc { pixel_scale, ..self }
    }

    /// The extracted patterns.
    pub fn get_patterns(&self) -> (r: &Vec<crate::preprocessor::Pattern>)
        requires
            self.wfc_data is Some,
        ensures
            *r == self.wfc_data.unwrap().patterns,
    {
        match &self.wfc_data {
            Some(d) => &d.patterns,
            None => unreached(),
        }
    }

    /// The extracted adjacency rules.
    pub fn get_adjacency_rules(&self) -> (r: &crate::adjacency_rules::AdjacencyRules)
        requires
            self.wfc_data is Some,
        ensures
            *r == self.wfc_data.unwrap().adjacency_rules,
    {
        match &self.wfc_data {
            Some(d) => &d.adjacency_rules,
            None => unreached(),
        }
    }

    /// The extracted tile frequencies.
    pub fn get_tile_frequencies(&self) -> (r: &Vec<usize>)
        requires
            self.wfc_data is Some,
        ensures
            *r == self.wfc_data.unwrap().tile_frequencies,
    {
        match &self.wfc_data {
            Some(d) => &d.tile_frequencies,
            None => unreached(),
        }
    }

    /// Runs the preprocessor over the stored image.
    pub fn process_image(&mut self)
        requires
            old(self).creation_mode is FromImage,
            old(self).ready(),
        ensures
            final(self).wfc_data matches Some(d) && d.wf(),
            final(self).ready(),
            final(self).creation_mode == old(self).creation_mode,
            final(self).tile_size == old(self).tile_size,
            final(self).output_dims == old(self).output_dims,
    {
        let img = match &self.image {
            Some(img) => img.clone(),
            None => unreached(),
        };
        let config = match self.processor_config {
            Some(c) => c,
            None => unreached(),
        };
        let mut processor = crate::preprocessor::PreProcessor::new(img, self.tile_size, config);
        let data = processor.process();
        self.wfc_data = Some(data);
    }

    /// Builds the solver: preprocesses first if needed, then sizes the grid
    /// as the output dimensions divided by the tile size.
    pub fn get_model(&mut self, seed: u64) -> (r: crate::wfc::Model)
        requires
            old(self).ready(),
        ensures
            r.wf(),
            final(self).ready(),
            final(self).tile_size == old(self).tile_size,
            final(self).output_dims == old(self).output_dims,
            // The model runs under the stored data: its rule table answers
            // as the stored one does, every cell starts with the stored
            // frequencies, and the grid is the output size in tiles.
            final(self).wfc_data matches Some(d) && d.wf() && r.n_spec()
                == d.adjacency_rules.len_spec() && (forall|
                a: usize,
                b: usize,
                dd: crate::adjacency_rules::CardinalDirs,
            | #[trigger] r.rules_spec().allows(a, b, dd) == d.adjacency_rules.allows(a, b, dd)) && (
            forall|i: int|
                0 <= i < r.cells().len() ==> (#[trigger] r.cells()[i]).probability_dict.counts@
                    == d.tile_frequencies@),
            r.width_spec() == old(self).output_dims.unwrap().width as int / old(self).tile_size as int,
            r.height_spec() == old(self).output_dims.unwrap().height as int / old(self).tile_size as int,
            r.remaining_spec() == r.width_spec() * r.height_spec(),
            r.wave_len() == 0,
    {
        if self.is_from_image() {
            self.process_image();
        }
        let data = match &self.wfc_data {
            Some(d) => d,
            None => unreached(),
        };
        let rules = data.adjacency_rules.clone();
        let freqs = crate::wfc::clone_counts(&data.tile_frequencies);
        let dims = match self.output_dims {
            Some(d) => d,
            None => unreached(),
        };
        let grid = Grid { width: dims.width / self.tile_size, height: dims.height / self.tile_size };
        proof {
            assert(grid.width * grid.height <= dims.width * dims.height) by (nonlinear_arith)
                requires
                    0 <= grid.width <= dims.width,
                    0 <= grid.height <= dims.height,
            ;
            vstd::arithmetic::div_mod::lemma_div_is_ordered_by_denominator(
                dims.width as int,
                1,
                self.tile_size as int,
            );
            vstd::arithmetic::div_mod::lemma_div_is_ordered_by_denominator(
                dims.height as int,
                1,
                self.tile_size as int,
            );
        }
        crate::wfc::Model::new(rules, freqs, grid, seed)
    }

    /// Whether the builder starts from a source image.
    fn is_from_image(&self) -> (r: bool)
        ensures
            r == (self.creation_mode is FromImage),
    {
        match self.creation_mode {
            CreationMode::FromImage => true,
            _ => false,
        }
    }

    /// Builds the model and steps it until every cell is collapsed, or a
    /// contradiction is hit.
    pub fn run(self, seed: u64) -> (r: Result<crate::wfc::Model, crate::adjacency_rules::Contradiction>)
        requires
            self.ready(),
        ensures
            r matches Ok(m) ==> m.wf() && m.remaining_spec() == 0,
    {
        let mut this = self;
        let mut model = this.get_model(seed);
        while model.remaining() != 0
            invariant
                model.wf(),
            decreases model.remaining_spec(), model.work_left(),
        {
            proof {
                model.lemma_work_left_nonneg();
            }
            let ghost old_r = model.remaining_spec();
            let ghost old_w = model.work_left();
            match model.step() {
                Ok(_) => {},
                Err(c) => {
                    return Err(c);
                },
            }
            proof {
                model.lemma_work_left_nonneg();
                assert(model.remaining_spec() < old_r || (model.remaining_spec() == old_r
                    && model.work_left() < old_w));
            }
        }
        Ok(model)
    }
}

} // verus!

use vstd::prelude::*;

verus! {

/// Smallest and largest grid width (number of columns).
pub const MIN_WIDTH: u32 = 9;
pub const MAX_WIDTH: u32 = 30;
/// Smallest and largest grid height (number of rows).
pub const MIN_HEIGHT: u32 = 9;
pub const MAX_HEIGHT: u32 = 24;
/// Smallest number of mines on any board.
pub const MIN_MINES: u32 = 10;

/// The named presets, plus user-chosen dimensions.
#[derive(Debug, Clone, Copy, PartialEq, Eq, Structural)]
pub enum DifficultyType {
    Beginner,
    Intermediate,
    Expert,
    Custom,
}

impl DifficultyType {
    /// The lower-case name under which the setting is stored.
    pub fn name(&self) -> (r: &'static str)
        ensures
            r@ == match *self {
                DifficultyType::Beginner => "beginner"@,
                DifficultyType::Intermediate => "intermediate"@,
                DifficultyType::Expert => "expert"@,
                DifficultyType::Custom => "custom"@,
            },
    {
        match self {
            DifficultyType::Beginner => "beginner",
            DifficultyType::Intermediate => "intermediate",
            DifficultyType::Expert => "expert",
            DifficultyType::Custom => "custom",
        }
    }
}

/// A validated (width, height, mine count) triple.
#[derive(Debug, Clone, Copy, PartialEq, Eq, Structural)]
pub struct Difficulty {
    difficulty_type: DifficultyType,
    num_mines: u32,
    grid_width: u32,
    grid_height: u32,
}

/// `v` narrowed into `[lo, hi]`.
pub open spec fn clamp_spec(v: int, lo: int, hi: int) -> int {
    if v < lo {
        lo
    } else if v > hi {
        hi
    } else {
        v
    }
}

/// Largest number of mines allowed on a `width` by `height` grid.
pub open spec fn max_mines(width: int, height: int) -> int {
    (height - 1) * (width - 1)
}

/// Bounds that every board configuration respects.
pub open spec fn valid_dimensions(width: int, height: int, mines: int) -> bool {
    &&& MIN_WIDTH <= width <= MAX_WIDTH
    &&& MIN_HEIGHT <= height <= MAX_HEIGHT
    &&& MIN_MINES <= mines <= max_mines(width, height)
}

fn clamp_u32(v: u32, lo: u32, hi: u32) -> (r: u32)
    requires
        lo <= hi,
    ensures
        r == clamp_spec(v as int, lo as int, hi as int),
{
    if v < lo {
        lo
    } else if v > hi {
        hi
    } else {
        v
    }
}

impl Difficulty {
    pub closed spec fn width_spec(&self) -> u32 {
        self.grid_width
    }

    pub closed spec fn height_spec(&self) -> u32 {
        self.grid_height
    }

    pub closed spec fn mines_spec(&self) -> u32 {
        self.num_mines
    }

    pub closed spec fn kind_spec(&self) -> DifficultyType {
        self.difficulty_type
    }

    /// Every value of this type respects the board bounds.
    pub open spec fn wf(&self) -> bool {
        valid_dimensions(self.width_spec() as int, self.height_spec() as int, self.mines_spec() as int)
    }

    /// 9 by 9 with 10 mines.
    pub fn beginner() -> (r: Difficulty)
        ensures
            r.wf(),
            r.kind_spec() == DifficultyType::Beginner,
            r.width_spec() == 9 && r.height_spec() == 9 && r.mines_spec() == 10,
    {
        Difficulty {
            difficulty_type: DifficultyType::Beginner,
            num_mines: 10,
            grid_width: 9,
            grid_height: 9,
        }
    }

    /// 16 by 16 with 40 mines.
    pub fn intermediate() -> (r: Difficulty)
        ensures
            r.wf(),
            r.kind_spec() == DifficultyType::Intermediate,
            r.width_spec() == 16 && r.height_spec() == 16 && r.mines_spec() == 40,
    {
        Difficulty {
            difficulty_type: DifficultyType::Intermediate,
            num_mines: 40,
            grid_width: 16,
            grid_height: 16,
        }
    }

    /// 30 columns by 16 rows with 99 mines.
    pub fn expert() -> (r: Difficulty)
        ensures
            r.wf(),
            r.kind_spec() == DifficultyType::Expert,
            r.width_spec() == 30 && r.height_spec() == 16 && r.mines_spec() == 99,
    {
        Difficulty {
            difficulty_type: DifficultyType::Expert,
            num_mines: 99,
            grid_width: 30,
            grid_height: 16,
        }
    }

    /// The preset that a stored difficulty name denotes, if it is one.
    pub fn preset(kind: DifficultyType) -> (r: Option<Difficulty>)
        ensures
            r.is_some() <==> kind != DifficultyType::Custom,
            r.is_some() ==> r.unwrap().wf() && r.unwrap().kind_spec() == kind,
    {
        match kind {
            DifficultyType::Beginner => Some(Difficulty::beginner()),
            DifficultyType::Intermediate => Some(Difficulty::intermediate()),
            DifficultyType::Expert => Some(Difficulty::expert()),
            DifficultyType::Custom => None,
        }
    }

    /// Grid width and height, in that order.
    pub fn dimensions(&self) -> (r: (u32, u32))
        ensures
            r == (self.width_spec(), self.height_spec()),
    {
        (self.grid_width, self.grid_height)
    }

    pub fn num_mines(&self) -> (r: u32)
        ensures
            r == self.mines_spec(),
    {
        self.num_mines
    }

    pub fn difficulty_type(&self) -> (r: DifficultyType)
        ensures
            r == self.kind_spec(),
    {
        self.difficulty_type
    }

    /// A custom difficulty. Never fails: the width is narrowed into
    /// `[9, 30]`, the height into `[9, 24]`, then the mine count into
    /// `[10, (height - 1) * (width - 1)]`.
    pub fn new(grid_width: u32, grid_height: u32, num_mines: u32) -> (r: Difficulty)
        ensures
            r.wf(),
            r.kind_spec() == DifficultyType::Custom,
            r.width_spec() == clamp_spec(grid_width as int, MIN_WIDTH as int, MAX_WIDTH as int),
            r.height_spec() == clamp_spec(grid_height as int, MIN_HEIGHT as int, MAX_HEIGHT as int),
            r.mines_spec() == clamp_spec(
                num_mines as int,
                MIN_MINES as int,
                max_mines(r.width_spec() as int, r.height_spec() as int),
            ),
    {
        let grid_width = clamp_u32(grid_width, MIN_WIDTH, MAX_WIDTH);
        let grid_height = clamp_u32(grid_height, MIN_HEIGHT, MAX_HEIGHT);
        assert((grid_height - 1) * (grid_width - 1) <= 23 * 29) by (nonlinear_arith)
            requires
                grid_height <= 24,
                grid_width <= 30,
                grid_height >= 9,
                grid_width >= 9,
        ;
        assert((grid_height - 1) * (grid_width - 1) >= 64) by (nonlinear_arith)
            requires
                grid_height >= 9,
                grid_width >= 9,
        ;
        let num_mines = clamp_u32(num_mines, MIN_MINES, (grid_height - 1) * (grid_width - 1));
        Difficulty { difficulty_type: DifficultyType::Custom, num_mines, grid_width, grid_height }
    }
}

impl Default for Difficulty {
    fn default() -> (r: Difficulty)
        ensures
            r.wf(),
            r.kind_spec() == DifficultyType::Beginner,
            r.width_spec() == 9 && r.height_spec() == 9 && r.mines_spec() == 10,
    {
        Difficulty::beginner()
    }
}

/// The rendering back end chosen in the settings.
#[derive(Debug, Clone, Copy, PartialEq, Eq, Structural)]
pub enum GraphicsType {
    OpenGL,
    Direct3D,
    Vulkan,
    Metal,
}

impl GraphicsType {
    /// The lower-case name under which the setting is stored.
    pub fn name(&self) -> (r: &'static str)
        ensures
            r@ == match *self {
                GraphicsType::OpenGL => "opengl"@,
                GraphicsType::Direct3D => "direct3d"@,
                GraphicsType::Vulkan => "vulkan"@,
                GraphicsType::Metal => "metal"@,
            },
    {
        match self {
            GraphicsType::OpenGL => "opengl",
            GraphicsType::Direct3D => "direct3d",
            GraphicsType::Vulkan => "vulkan",
            GraphicsType::Metal => "metal",
        }
    }
}

/// Longest time a high score records, in seconds.
pub const MAX_SCORE_TIME: u32 = 999;

/// The best time for one difficulty and who set it.
#[derive(Debug, Clone)]
pub struct HighScore {
    pub name: String,
    pub time: u32,
}

impl HighScore {
    /// A score whose time is capped at 999 seconds.
    pub fn new(name: String, time: u32) -> (r: HighScore)
        ensures
            r.name@ == name@,
            r.time == if time > MAX_SCORE_TIME { MAX_SCORE_TIME } else { time },
    {
        let time = if time > MAX_SCORE_TIME { MAX_SCORE_TIME } else { time };
        HighScore { name, time }
    }
}

impl Default for HighScore {
    fn default() -> (r: HighScore)
        ensures
            r.name@ == "Anonymous"@,
            r.time == MAX_SCORE_TIME,
    {
        HighScore { name: "Anonymous".to_string(), time: MAX_SCORE_TIME }
    }
}

/// Screen position of the window's top-left corner, in physical pixels.
#[derive(Debug, Clone, Copy, PartialEq, Eq, Structural)]
pub struct WindowPosition {
    pub x: i32,
    pub y: i32,
}

/// Everything the game keeps between sessions.
#[derive(Debug, Clone)]
pub struct Config {
    pub graphics_type: GraphicsType,
    pub legacy_rng: bool,
    pub difficulty: Difficulty,
    pub window_position: WindowPosition,
    pub sound_enabled: bool,
    pub marks_enabled: bool,
    pub colour_enabled: bool,
    pub beginner_score: HighScore,
    pub intermediate_score: HighScore,
    pub expert_score: HighScore,
}

impl Default for Config {
    fn default() -> (r: Config)
        ensures
            r.graphics_type == GraphicsType::OpenGL,
            !r.legacy_rng,
            r.difficulty.wf() && r.difficulty.kind_spec() == DifficultyType::Beginner,
            r.difficulty.width_spec() == 9 && r.difficulty.height_spec() == 9,
            r.difficulty.mines_spec() == 10,
            r.window_position == (WindowPosition { x: 80, y: 80 }),
            !r.sound_enabled,
            r.marks_enabled,
            r.colour_enabled,
            r.beginner_score.name@ == "Anonymous"@ && r.beginner_score.time == MAX_SCORE_TIME,
            r.intermediate_score.name@ == "Anonymous"@ && r.intermediate_score.time == MAX_SCORE_TIME,
            r.expert_score.name@ == "Anonymous"@ && r.expert_score.time == MAX_SCORE_TIME,
    {
        Config {
            graphics_type: GraphicsType::OpenGL,
            legacy_rng: false,
            difficulty: Difficulty::beginner(),
            window_position: WindowPosition { x: 80, y: 80 },
            sound_enabled: false,
            marks_enabled: true,
            colour_enabled: true,
            beginner_score: HighScore::default(),
            intermediate_score: HighScore::default(),
            expert_score: HighScore::default(),
        }
    }
}

/// Whether the text `value` is exactly `lit`.
fn text_is(value: &str, lit: &str) -> (r: bool)
    ensures
        r == (value@ == lit@),
{
    value.to_owned() == lit.to_owned()
}

/// The boolean that a stored setting denotes: "true", "yes" or "y" for
/// true, "false", "no" or "n" for false.
pub open spec fn flag_value(v: Seq<char>) -> Option<bool> {
    if v == "true"@ || v == "yes"@ || v == "y"@ {
        Some(true)
    } else if v == "false"@ || v == "no"@ || v == "n"@ {
        Some(false)
    } else {
        None
    }
}

/// Read a stored yes/no setting.
pub fn parse_flag(value: &str) -> (r: Option<bool>)
    ensures
        r == flag_value(value@),
{
    if text_is(value, "true") || text_is(value, "yes") || text_is(value, "y") {
        Some(true)
    } else if text_is(value, "false") || text_is(value, "no") || text_is(value, "n") {
        Some(false)
    } else {
        None
    }
}

/// The back end that a stored name denotes; "directx" is read as Direct3D.
pub open spec fn graphics_value(v: Seq<char>) -> Option<GraphicsType> {
    if v == "opengl"@ {
        Some(GraphicsType::OpenGL)
    } else if v == "vulkan"@ {
        Some(GraphicsType::Vulkan)
    } else if v == "metal"@ {
        Some(GraphicsType::Metal)
    } else if v == "direct3d"@ || v == "directx"@ {
        Some(GraphicsType::Direct3D)
    } else {
        None
    }
}

/// The preset kind that a stored difficulty name denotes; any other name
/// stands for custom dimensions.
pub open spec fn preset_kind_value(v: Seq<char>) -> DifficultyType {
    if v == "beginner"@ {
        DifficultyType::Beginner
    } else if v == "intermediate"@ {
        DifficultyType::Intermediate
    } else if v == "expert"@ {
        DifficultyType::Expert
    } else {
        DifficultyType::Custom
    }
}

impl GraphicsType {
    /// Read a stored back-end name.
    pub fn from_name(value: &str) -> (r: Option<GraphicsType>)
        ensures
            r == graphics_value(value@),
    {
        if text_is(value, "opengl") {
            Some(GraphicsType::OpenGL)
        } else if text_is(value, "vulkan") {
            Some(GraphicsType::Vulkan)
        } else if text_is(value, "metal") {
            Some(GraphicsType::Metal)
        } else if text_is(value, "direct3d") || text_is(value, "directx") {
            Some(GraphicsType::Direct3D)
        } else {
            None
        }
    }
}

impl DifficultyType {
    /// Read a stored difficulty name.
    pub fn from_name(value: &str) -> (r: DifficultyType)
        ensures
            r == preset_kind_value(value@),
    {
        if text_is(value, "beginner") {
            DifficultyType::Beginner
        } else if text_is(value, "intermediate") {
            DifficultyType::Intermediate
        } else if text_is(value, "expert") {
            DifficultyType::Expert
        } else {
            DifficultyType::Custom
        }
    }
}

} // verus!

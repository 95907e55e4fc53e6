//! Settings that change how the game looks and plays, and the allocator that
//! hands out free space in the image.

use vstd::prelude::*;
use vstd::string::StringSliceAdditionalSpecFns;
use vstd::utf8::encode_utf8_decode_utf8;

verus! {

/// One stretch of free space: it begins at `start_addr`, ends before
/// `end_addr`, and is in use up to `current_addr`.
#[derive(Clone, Copy, Debug, PartialEq, Eq, Structural)]
pub struct AllocatorBlock {
    pub start_addr: usize,
    pub end_addr: usize,
    pub current_addr: usize,
}

impl AllocatorBlock {
    /// Whether the block is in use from its start up to a point within it.
    pub open spec fn wf(self) -> bool {
        self.start_addr <= self.current_addr <= self.end_addr
    }

    /// How many bytes of the block are free.
    pub open spec fn free(self) -> int {
        self.end_addr - self.current_addr
    }

    /// How many bytes the block holds.
    pub open spec fn capacity(self) -> int {
        self.end_addr - self.start_addr
    }

    /// A block of which nothing is in use.
    pub open spec fn unused(range: (usize, usize)) -> AllocatorBlock {
        AllocatorBlock { start_addr: range.0, end_addr: range.1, current_addr: range.0 }
    }
}

/// Hands out space from a list of blocks, the first block first.
pub struct Allocator {
    blocks: Vec<AllocatorBlock>,
}

/// No block has room for a request of `size` bytes.
#[derive(Clone, Copy, Debug, PartialEq, Eq, Structural)]
pub struct AllocationError {
    pub size: usize,
}

/// The position of the first of `blocks` that has `size` bytes free, or the
/// number of blocks where none has.
pub open spec fn first_fit(blocks: Seq<AllocatorBlock>, size: int) -> int
    decreases blocks.len(),
{
    if blocks.len() == 0 {
        0
    } else if blocks[0].free() >= size {
        0
    } else {
        1 + first_fit(blocks.skip(1), size)
    }
}

/// The bytes that `blocks` hold in all.
pub open spec fn total_capacity(blocks: Seq<AllocatorBlock>) -> int
    decreases blocks.len(),
{
    if blocks.len() == 0 {
        0
    } else {
        total_capacity(blocks.drop_last()) + blocks.last().capacity()
    }
}

/// The bytes that are free in `blocks`, partly used blocks included.
pub open spec fn total_free(blocks: Seq<AllocatorBlock>) -> int
    decreases blocks.len(),
{
    if blocks.len() == 0 {
        0
    } else {
        total_free(blocks.drop_last()) + blocks.last().free()
    }
}

/// The bytes of those of `blocks` of which nothing is in use.
pub open spec fn total_untouched(blocks: Seq<AllocatorBlock>) -> int
    decreases blocks.len(),
{
    if blocks.len() == 0 {
        0
    } else if blocks.last().current_addr == blocks.last().start_addr {
        total_untouched(blocks.drop_last()) + blocks.last().capacity()
    } else {
        total_untouched(blocks.drop_last())
    }
}

/// The position that `first_fit` gives is the first with room, if any has.
pub proof fn lemma_first_fit(blocks: Seq<AllocatorBlock>, size: int)
    ensures
        0 <= first_fit(blocks, size) <= blocks.len(),
        forall|i: int| 0 <= i < first_fit(blocks, size) ==> (#[trigger] blocks[i]).free() < size,
        first_fit(blocks, size) < blocks.len() ==> blocks[first_fit(blocks, size)].free() >= size,
    decreases blocks.len(),
{
    if blocks.len() > 0 && blocks[0].free() < size {
        let rest = blocks.skip(1);
        lemma_first_fit(rest, size);
        assert forall|i: int| 0 <= i < first_fit(blocks, size) implies (#[trigger] blocks[i]).free()
            < size by {
            if i > 0 {
                assert(blocks[i] == rest[i - 1]);
            }
        }
    }
}

/// Blocks that are well formed are no freer than they are large.
pub proof fn lemma_totals(blocks: Seq<AllocatorBlock>)
    requires
        forall|i: int| 0 <= i < blocks.len() ==> (#[trigger] blocks[i]).wf(),
    ensures
        0 <= total_untouched(blocks) <= total_free(blocks) <= total_capacity(blocks),
    decreases blocks.len(),
{
    if blocks.len() > 0 {
        let init = blocks.drop_last();
        assert forall|i: int| 0 <= i < init.len() implies (#[trigger] init[i]).wf() by {
            assert(init[i] == blocks[i]);
        }
        lemma_totals(init);
        assert(blocks.last() == blocks[blocks.len() - 1]);
    }
}

impl View for Allocator {
    type V = Seq<AllocatorBlock>;

    closed spec fn view(&self) -> Seq<AllocatorBlock> {
        self.blocks@
    }
}

impl Allocator {
    /// Whether every block is in use from its start up to a point within it.
    pub open spec fn wf(&self) -> bool {
        forall|i: int| 0 <= i < self@.len() ==> (#[trigger] self@[i]).wf()
    }

    /// An allocator over `blocks`, each given by its start and its end, with
    /// nothing in use.
    pub fn new(blocks: Vec<(usize, usize)>) -> (allocator: Self)
        requires
            forall|i: int| 0 <= i < blocks@.len() ==> (#[trigger] blocks@[i]).0 <= blocks@[i].1,
        ensures
            allocator.wf(),
            allocator@ == blocks@.map_values(|range: (usize, usize)| AllocatorBlock::unused(range)),
    {
        let mut out: Vec<AllocatorBlock> = Vec::new();
        let mut i: usize = 0;
        while i < blocks.len()
            invariant
                i <= blocks@.len(),
                forall|k: int| 0 <= k < blocks@.len() ==> (#[trigger] blocks@[k]).0 <= blocks@[k].1,
                out@ == blocks@.take(i as int).map_values(
                    |range: (usize, usize)| AllocatorBlock::unused(range),
                ),
            decreases blocks@.len() - i,
        {
            let (start, end) = blocks[i];
            out.push(AllocatorBlock { start_addr: start, end_addr: end, current_addr: start });
            i += 1;
            assert(out@ =~= blocks@.take(i as int).map_values(
                |range: (usize, usize)| AllocatorBlock::unused(range),
            ));
        }
        assert(blocks@.take(i as int) =~= blocks@);
        assert forall|k: int| 0 <= k < out@.len() implies (#[trigger] out@[k]).wf() by {
            assert(out@[k] == AllocatorBlock::unused(blocks@[k]));
        }
        Allocator { blocks: out }
    }

    /// Takes `size` bytes from the first block that has them free, and
    /// returns where they begin. Fails, changing nothing, where no block has.
    pub fn allocate(&mut self, size: usize) -> (r: Result<usize, AllocationError>)
        requires
            old(self).wf(),
        ensures
            final(self).wf(),
            match r {
                Ok(addr) => {
                    let k = first_fit(old(self)@, size as int);
                    &&& k < old(self)@.len()
                    &&& addr == old(self)@[k].current_addr
                    &&& final(self)@ == old(self)@.update(
                        k,
                        AllocatorBlock { current_addr: (addr + size) as usize, ..old(self)@[k] },
                    )
                },
                Err(e) => {
                    &&& first_fit(old(self)@, size as int) == old(self)@.len()
                    &&& final(self)@ == old(self)@
                    &&& e.size == size
                },
            },
    {
        proof {
            lemma_first_fit(self@, size as int);
        }
        let mut i: usize = 0;
        while i < self.blocks.len()
            invariant
                i <= self.blocks@.len(),
                *self == *old(self),
                forall|k: int| 0 <= k < self.blocks@.len() ==> (#[trigger] self.blocks@[k]).wf(),
                forall|k: int| 0 <= k < i ==> (#[trigger] self.blocks@[k]).free() < size,
                0 <= first_fit(self@, size as int) <= self@.len(),
                forall|k: int|
                    0 <= k < first_fit(self@, size as int) ==> (#[trigger] self@[k]).free() < size,
                first_fit(self@, size as int) < self@.len() ==> self@[first_fit(
                    self@,
                    size as int,
                )].free() >= size,
            decreases self.blocks@.len() - i,
        {
            let block: AllocatorBlock = self.blocks[i];
            if block.end_addr - block.current_addr >= size {
                let addr: usize = block.current_addr;
                proof {
                    assert(self@[i as int].free() >= size);
                    let first = first_fit(self@, size as int);
                    if first < i {
                        assert(self@[first].free() >= size);
                    }
                }
                self.blocks[i] = AllocatorBlock { current_addr: addr + size, ..block };
                assert forall|k: int| 0 <= k < self@.len() implies (#[trigger] self@[k]).wf() by {
                    if k != i {
                        assert(self@[k] == old(self)@[k]);
                    }
                }
                return Ok(addr);
            }
            i += 1;
        }
        Err(AllocationError { size })
    }

    /// Three sums in bytes: the blocks of which nothing is in use, all that
    /// is free, and all the blocks.
    pub fn get_stats(&self) -> (stats: (usize, usize, usize))
        requires
            self.wf(),
            total_capacity(self@) <= usize::MAX,
        ensures
            stats.0 == total_untouched(self@),
            stats.1 == total_free(self@),
            stats.2 == total_capacity(self@),
    {
        let mut min_free: usize = 0;
        let mut max_free: usize = 0;
        let mut total_capacity_so_far: usize = 0;
        let mut i: usize = 0;
        while i < self.blocks.len()
            invariant
                i <= self.blocks@.len(),
                forall|k: int| 0 <= k < self.blocks@.len() ==> (#[trigger] self.blocks@[k]).wf(),
                total_capacity(self@) <= usize::MAX,
                min_free == total_untouched(self@.take(i as int)),
                max_free == total_free(self@.take(i as int)),
                total_capacity_so_far == total_capacity(self@.take(i as int)),
            decreases self.blocks@.len() - i,
        {
            let block: AllocatorBlock = self.blocks[i];
            proof {
                let longer = self@.take(i + 1);
                assert(longer.drop_last() =~= self@.take(i as int));
                assert(longer.last() == block);
                assert forall|k: int| 0 <= k < longer.len() implies (#[trigger] longer[k]).wf() by {
                    assert(longer[k] == self.blocks@[k]);
                }
                lemma_totals(longer);
                lemma_capacity_grows(self@, i + 1);
            }
            total_capacity_so_far += block.end_addr - block.start_addr;
            if block.current_addr == block.start_addr {
                min_free += block.end_addr - block.start_addr;
            }
            max_free += block.end_addr - block.current_addr;
            i += 1;
        }
        assert(self@.take(i as int) =~= self@);
        (min_free, max_free, total_capacity_so_far)
    }
}

/// The first `n` of well-formed blocks hold no more than all of them.
pub proof fn lemma_capacity_grows(blocks: Seq<AllocatorBlock>, n: int)
    requires
        forall|i: int| 0 <= i < blocks.len() ==> (#[trigger] blocks[i]).wf(),
        0 <= n <= blocks.len(),
    ensures
        total_capacity(blocks.take(n)) <= total_capacity(blocks),
    decreases blocks.len() - n,
{
    if n < blocks.len() {
        lemma_capacity_grows(blocks, n + 1);
        assert(blocks.take(n + 1).drop_last() =~= blocks.take(n));
        assert(blocks.take(n + 1).last() == blocks[n]);
    } else {
        assert(blocks.take(n) =~= blocks);
    }
}

/// Whether the music follows the area.
#[derive(Debug)]
pub enum MusicSettings {
    AreaThemed,
    Disabled,
}

/// Which palettes the rooms get.
#[derive(Debug)]
pub enum PaletteTheme {
    Vanilla,
    AreaThemed,
}

/// Which tiles the rooms get.
#[derive(Debug, Clone, PartialEq, Eq)]
pub enum TileTheme {
    Vanilla,
    AreaThemed,
    Scrambled,
    Constant(String),
}

/// Which colours the doors get.
#[derive(Debug, Copy, Clone)]
pub enum DoorTheme {
    Vanilla,
    Alternate,
}

impl Default for DoorTheme {
    fn default() -> (theme: Self)
        ensures
            theme is Vanilla,
    {
        DoorTheme::Vanilla
    }
}

/// A button of the controller, or `Default` for whichever button an action
/// has in the unchanged game.
#[derive(Debug, Copy, Clone, PartialEq, Eq, Structural)]
pub enum ControllerButton {
    Default,
    Left,
    Right,
    Up,
    Down,
    X,
    Y,
    A,
    B,
    L,
    R,
    Select,
    Start,
}

impl Default for ControllerButton {
    fn default() -> (button: Self)
        ensures
            button is Default,
    {
        ControllerButton::Default
    }
}

/// Which button does what.
#[derive(Debug)]
pub struct ControllerConfig {
    pub shot: ControllerButton,
    pub jump: ControllerButton,
    pub dash: ControllerButton,
    pub item_select: ControllerButton,
    pub item_cancel: ControllerButton,
    pub angle_up: ControllerButton,
    pub angle_down: ControllerButton,
    pub spin_lock_buttons: Vec<ControllerButton>,
    pub quick_reload_buttons: Vec<ControllerButton>,
    pub moonwalk: bool,
}

impl Default for ControllerConfig {
    fn default() -> (config: Self)
        ensures
            config.shot is Default,
            config.jump is Default,
            config.dash is Default,
            config.item_select is Default,
            config.item_cancel is Default,
            config.angle_up is Default,
            config.angle_down is Default,
            config.spin_lock_buttons@.len() == 0,
            config.quick_reload_buttons@.len() == 0,
            !config.moonwalk,
    {
        ControllerConfig {
            shot: ControllerButton::Default,
            jump: ControllerButton::Default,
            dash: ControllerButton::Default,
            item_select: ControllerButton::Default,
            item_cancel: ControllerButton::Default,
            angle_up: ControllerButton::Default,
            angle_down: ControllerButton::Default,
            spin_lock_buttons: Vec::new(),
            quick_reload_buttons: Vec::new(),
            moonwalk: false,
        }
    }
}

/// How much the screen shakes.
#[derive(Debug, Copy, Clone)]
pub enum ShakingSetting {
    Vanilla,
    Reduced,
    Disabled,
}

/// How much the screen flashes.
#[derive(Debug, Copy, Clone)]
pub enum FlashingSetting {
    Vanilla,
    Reduced,
}

/// What becomes of the dot of an item that was collected.
#[derive(Clone, Copy, Debug, PartialEq, Eq, Structural)]
pub enum ItemDotChange {
    Fade,
    Disappear,
}

/// All the settings.
#[derive(Debug)]
pub struct CustomizeSettings {
    pub samus_sprite: Option<String>,
    pub etank_color: Option<(u8, u8, u8)>,
    pub item_dot_change: ItemDotChange,
    pub transition_letters: bool,
    pub reserve_hud_style: bool,
    pub vanilla_screw_attack_animation: bool,
    pub palette_theme: PaletteTheme,
    pub tile_theme: TileTheme,
    pub door_theme: DoorTheme,
    pub music: MusicSettings,
    pub disable_beeping: bool,
    pub shaking: ShakingSetting,
    pub flashing: FlashingSetting,
    pub room_names: bool,
    pub controller_config: ControllerConfig,
}

impl Default for CustomizeSettings {
    fn default() -> (settings: Self)
        ensures
            settings.samus_sprite is Some,
            settings.samus_sprite->Some_0@ == "samus_vanilla"@,
            settings.etank_color is None,
            settings.item_dot_change is Fade,
            settings.transition_letters,
            settings.reserve_hud_style,
            settings.vanilla_screw_attack_animation,
            settings.room_names,
            settings.palette_theme is Vanilla,
            settings.tile_theme is AreaThemed,
            settings.door_theme is Vanilla,
            settings.music is AreaThemed,
            !settings.disable_beeping,
            settings.shaking is Vanilla,
            settings.flashing is Vanilla,
            settings.controller_config.shot is Default,
            settings.controller_config.jump is Default,
            settings.controller_config.dash is Default,
            settings.controller_config.item_select is Default,
            settings.controller_config.item_cancel is Default,
            settings.controller_config.angle_up is Default,
            settings.controller_config.angle_down is Default,
            settings.controller_config.spin_lock_buttons@.len() == 0,
            settings.controller_config.quick_reload_buttons@.len() == 0,
            !settings.controller_config.moonwalk,
    {
        Self {
            samus_sprite: Some("samus_vanilla".to_owned()),
            etank_color: None,
            item_dot_change: ItemDotChange::Fade,
            transition_letters: true,
            reserve_hud_style: true,
            vanilla_screw_attack_animation: true,
            room_names: true,
            palette_theme: PaletteTheme::Vanilla,
            tile_theme: TileTheme::AreaThemed,
            door_theme: DoorTheme::Vanilla,
            music: MusicSettings::AreaThemed,
            disable_beeping: false,
            shaking: ShakingSetting::Vanilla,
            flashing: FlashingSetting::Vanilla,
            controller_config: ControllerConfig::default(),
        }
    }
}

/// A name that stands for no button.
#[derive(Debug, Clone, PartialEq, Eq)]
pub struct UnexpectedButton {
    pub name: String,
}

/// Whether two strings hold the same text.
pub fn same_text(a: &str, b: &str) -> (same: bool)
    ensures
        same == (a@ == b@),
{
    let x: &[u8] = a.as_bytes();
    let y: &[u8] = b.as_bytes();
    if x.len() != y.len() {
        return false;
    }
    let mut i: usize = 0;
    while i < x.len()
        invariant
            i <= x@.len(),
            x@.len() == y@.len(),
            x@ == a.spec_bytes(),
            y@ == b.spec_bytes(),
            x@.subrange(0, i as int) == y@.subrange(0, i as int),
        decreases x@.len() - i,
    {
        if x[i] != y[i] {
            return false;
        }
        i += 1;
        assert(x@.subrange(0, i as int) =~= x@.subrange(0, i - 1).push(x@[i - 1]));
        assert(y@.subrange(0, i as int) =~= y@.subrange(0, i - 1).push(y@[i - 1]));
    }
    assert(x@.subrange(0, i as int) =~= x@);
    assert(y@.subrange(0, i as int) =~= y@);
    proof {
        encode_utf8_decode_utf8(a@);
        encode_utf8_decode_utf8(b@);
    }
    true
}

/// The button that `name` stands for. `Start` and `Default` have no name.
pub open spec fn button_named(name: Seq<char>) -> Option<ControllerButton> {
    if name == "Left"@ {
        Some(ControllerButton::Left)
    } else if name == "Right"@ {
        Some(ControllerButton::Right)
    } else if name == "Up"@ {
        Some(ControllerButton::Up)
    } else if name == "Down"@ {
        Some(ControllerButton::Down)
    } else if name == "X"@ {
        Some(ControllerButton::X)
    } else if name == "Y"@ {
        Some(ControllerButton::Y)
    } else if name == "A"@ {
        Some(ControllerButton::A)
    } else if name == "B"@ {
        Some(ControllerButton::B)
    } else if name == "Select"@ {
        Some(ControllerButton::Select)
    } else if name == "L"@ {
        Some(ControllerButton::L)
    } else if name == "R"@ {
        Some(ControllerButton::R)
    } else {
        None
    }
}

/// The button that `s` names, or `s` itself where it names none.
pub fn parse_controller_button(s: &str) -> (r: Result<ControllerButton, UnexpectedButton>)
    ensures
        match r {
            Ok(button) => button_named(s@) == Some(button),
            Err(e) => button_named(s@) is None && e.name@ == s@,
        },
{
    if same_text(s, "Left") {
        Ok(ControllerButton::Left)
    } else if same_text(s, "Right") {
        Ok(ControllerButton::Right)
    } else if same_text(s, "Up") {
        Ok(ControllerButton::Up)
    } else if same_text(s, "Down") {
        Ok(ControllerButton::Down)
    } else if same_text(s, "X") {
        Ok(ControllerButton::X)
    } else if same_text(s, "Y") {
        Ok(ControllerButton::Y)
    } else if same_text(s, "A") {
        Ok(ControllerButton::A)
    } else if same_text(s, "B") {
        Ok(ControllerButton::B)
    } else if same_text(s, "Select") {
        Ok(ControllerButton::Select)
    } else if same_text(s, "L") {
        Ok(ControllerButton::L)
    } else if same_text(s, "R") {
        Ok(ControllerButton::R)
    } else {
        Err(UnexpectedButton { name: s.to_owned() })
    }
}

/// The bit that the controller sets for `button`; none for `Default`.
pub open spec fn button_bit(button: ControllerButton) -> isize {
    match button {
        ControllerButton::Default => 0x0000,
        ControllerButton::Left => 0x0200,
        ControllerButton::Right => 0x0100,
        ControllerButton::Up => 0x0800,
        ControllerButton::Down => 0x0400,
        ControllerButton::X => 0x0040,
        ControllerButton::Y => 0x4000,
        ControllerButton::A => 0x0080,
        ControllerButton::B => 0x8000,
        ControllerButton::L => 0x0020,
        ControllerButton::R => 0x0010,
        ControllerButton::Select => 0x2000,
        ControllerButton::Start => 0x1000,
    }
}

/// The bit of `controller_button`, or of `default` in its place where it is
/// `Default`.
pub fn get_button_mask(controller_button: ControllerButton, default: ControllerButton) -> (mask:
    isize)
    requires
        !(controller_button is Default && default is Default),
    ensures
        mask == button_bit(
            if controller_button is Default {
                default
            } else {
                controller_button
            },
        ),
        mask != 0,
{
    let mut controller_button = controller_button;
    if let ControllerButton::Default = controller_button {
        controller_button = default;
    }
    match controller_button {
        ControllerButton::Left => 0x0200,
        ControllerButton::Right => 0x0100,
        ControllerButton::Up => 0x0800,
        ControllerButton::Down => 0x0400,
        ControllerButton::X => 0x0040,
        ControllerButton::Y => 0x4000,
        ControllerButton::A => 0x0080,
        ControllerButton::B => 0x8000,
        ControllerButton::L => 0x0020,
        ControllerButton::R => 0x0010,
        ControllerButton::Select => 0x2000,
        _ => 0x1000,
    }
}

/// The bits of all of `buttons` together.
pub open spec fn buttons_bits(buttons: Seq<ControllerButton>) -> isize
    decreases buttons.len(),
{
    if buttons.len() == 0 {
        0
    } else {
        buttons_bits(buttons.drop_last()) | button_bit(buttons.last())
    }
}

/// The bits of all of `buttons` together; all sixteen bits for no buttons,
/// so that a combination without buttons is never held.
pub fn get_button_list_mask(buttons: &[ControllerButton]) -> (mask: isize)
    requires
        forall|i: int| 0 <= i < buttons@.len() ==> !(#[trigger] buttons@[i] is Default),
    ensures
        mask == if buttons_bits(buttons@) == 0 {
            0xFFFF
        } else {
            buttons_bits(buttons@)
        },
{
    let mut mask: isize = 0x0000;
    let mut i: usize = 0;
    while i < buttons.len()
        invariant
            i <= buttons@.len(),
            forall|k: int| 0 <= k < buttons@.len() ==> !(#[trigger] buttons@[k] is Default),
            mask == buttons_bits(buttons@.take(i as int)),
        decreases buttons@.len() - i,
    {
        let button: ControllerButton = buttons[i];
        assert(buttons@.take(i + 1).drop_last() =~= buttons@.take(i as int));
        mask |= get_button_mask(button, ControllerButton::Default);
        i += 1;
    }
    assert(buttons@.take(i as int) =~= buttons@);
    if mask == 0x0000 {
        // A combination without buttons is switched off: it must not count as held
        // while nothing is pressed.
        mask = 0xFFFF;
    }
    mask
}

/// The words that a controller configuration puts into the image, each with
/// the address it goes to: one for each of the seven actions, where `Default`
/// stands for the button that the action has in the unchanged game, then one
/// for the buttons that lock the spin and one for those that reload.
pub open spec fn controller_words(config: ControllerConfig) -> Seq<(usize, isize)> {
    seq![
        (0x81B325usize, button_bit(button_or(config.jump, ControllerButton::A))),
        (0x81B32Busize, button_bit(button_or(config.dash, ControllerButton::B))),
        (0x81B331usize, button_bit(button_or(config.shot, ControllerButton::X))),
        (0x81B337usize, button_bit(button_or(config.item_cancel, ControllerButton::Y))),
        (0x81B33Dusize, button_bit(button_or(config.item_select, ControllerButton::Select))),
        (0x81B343usize, button_bit(button_or(config.angle_up, ControllerButton::R))),
        (0x81B349usize, button_bit(button_or(config.angle_down, ControllerButton::L))),
        (0x82FE7Cusize, held_bits(config.spin_lock_buttons@)),
        (0x82FE7Eusize, held_bits(config.quick_reload_buttons@)),
    ]
}

/// `button`, or `default` in its place where it is `Default`.
pub open spec fn button_or(
    button: ControllerButton,
    default: ControllerButton,
) -> ControllerButton {
    if button is Default {
        default
    } else {
        button
    }
}

/// The bits of a combination of buttons: all sixteen where there is none.
pub open spec fn held_bits(buttons: Seq<ControllerButton>) -> isize {
    if buttons_bits(buttons) == 0 {
        0xFFFF
    } else {
        buttons_bits(buttons)
    }
}

/// Whether none of `buttons` is `Default`.
pub open spec fn all_named(buttons: Seq<ControllerButton>) -> bool {
    forall|i: int| 0 <= i < buttons.len() ==> !(#[trigger] buttons[i] is Default)
}

/// The words that `controller_config` puts into the image, each with the
/// address it goes to.
pub fn apply_controller_config(controller_config: &ControllerConfig) -> (words: Vec<(usize, isize)>)
    requires
        all_named(controller_config.spin_lock_buttons@),
        all_named(controller_config.quick_reload_buttons@),
    ensures
        words@ == controller_words(*controller_config),
{
    let mut words: Vec<(usize, isize)> = Vec::new();
    words.push((0x81B325, get_button_mask(controller_config.jump, ControllerButton::A)));
    words.push((0x81B32B, get_button_mask(controller_config.dash, ControllerButton::B)));
    words.push((0x81B331, get_button_mask(controller_config.shot, ControllerButton::X)));
    words.push((0x81B337, get_button_mask(controller_config.item_cancel, ControllerButton::Y)));
    words.push(
        (0x81B33D, get_button_mask(controller_config.item_select, ControllerButton::Select)),
    );
    words.push((0x81B343, get_button_mask(controller_config.angle_up, ControllerButton::R)));
    words.push((0x81B349, get_button_mask(controller_config.angle_down, ControllerButton::L)));
    let spin_lock_mask: isize = get_button_list_mask(
        controller_config.spin_lock_buttons.as_slice(),
    );
    words.push((0x82FE7C, spin_lock_mask));
    let quick_reload_mask: isize = get_button_list_mask(
        controller_config.quick_reload_buttons.as_slice(),
    );
    words.push((0x82FE7E, quick_reload_mask));
    assert(words@ =~= controller_words(*controller_config));
    words
}

/// Whether the game has an area with these three numbers: area, part of the
/// area, part of the part.
pub open spec fn is_area(area: usize, sub_area: usize, sub_sub_area: usize) -> bool {
    ||| area == 0 && sub_area == 0
    ||| area == 0 && sub_area == 1 && sub_sub_area <= 1
    ||| area == 1 && sub_area == 0 && sub_sub_area <= 1
    ||| area == 1 && sub_area == 1
    ||| area == 2 && sub_area <= 1
    ||| area == 3
    ||| area == 4 && sub_area <= 1
    ||| area == 5 && sub_area <= 1
}

/// The name of the tile theme of an area.
pub open spec fn area_theme(area: usize, sub_area: usize, sub_sub_area: usize) -> Seq<char> {
    if area == 0 {
        if sub_area == 0 {
            "OuterCrateria"@
        } else if sub_sub_area == 0 {
            "InnerCrateria"@
        } else {
            "BlueBrinstar"@
        }
    } else if area == 1 {
        if sub_area != 0 {
            "RedBrinstar"@
        } else if sub_sub_area == 0 {
            "GreenBrinstar"@
        } else {
            "PinkBrinstar"@
        }
    } else if area == 2 {
        if sub_area == 0 {
            "UpperNorfair"@
        } else {
            "LowerNorfair"@
        }
    } else if area == 3 {
        "WreckedShip"@
    } else if area == 4 {
        if sub_area == 0 {
            "WestMaridia"@
        } else {
            "YellowMaridia"@
        }
    } else {
        if sub_area == 0 {
            "MetroidHabitat"@
        } else {
            "MechaTourian"@
        }
    }
}

/// The name of the tile theme that rooms of an area get where the tiles
/// follow the area.
pub fn area_theme_name(area: usize, sub_area: usize, sub_sub_area: usize) -> (name: &'static str)
    requires
        is_area(area, sub_area, sub_sub_area),
    ensures
        name@ == area_theme(area, sub_area, sub_sub_area),
{
    match (area, sub_area, sub_sub_area) {
        (0, 0, _) => "OuterCrateria",
        (0, 1, 0) => "InnerCrateria",
        (0, 1, 1) => "BlueBrinstar",
        (1, 0, 0) => "GreenBrinstar",
        (1, 0, 1) => "PinkBrinstar",
        (1, 1, _) => "RedBrinstar",
        (2, 0, _) => "UpperNorfair",
        (2, 1, _) => "LowerNorfair",
        (3, _, _) => "WreckedShip",
        (4, 0, _) => "WestMaridia",
        (4, 1, _) => "YellowMaridia",
        (5, 0, _) => "MetroidHabitat",
        _ => "MechaTourian",
    }
}

} // verus!

//! Audio devices: which one to open, and the state of the microphone and the
//! speakers while devices come and go.

use crate::text::{concat2, concat3, same, views};
use vstd::prelude::*;

verus! {

// ---- choosing a device ------------------------------------------------------

#[derive(Debug, Clone, Copy, PartialEq, Eq, Structural)]
pub enum Direction {
    Input,
    Output,
}

impl Direction {
    pub open spec fn word(self) -> Seq<char> {
        match self {
            Direction::Input => "input"@,
            Direction::Output => "output"@,
        }
    }

    fn label(self) -> (r: &'static str)
        ensures
            r@ == self.word(),
    {
        match self {
            Direction::Input => "input",
            Direction::Output => "output",
        }
    }
}

/// The contents of a list of names, some of which could not be told.
pub open spec fn name_views(names: Seq<Option<String>>) -> Seq<Option<Seq<char>>> {
    names.map_values(|n: Option<String>| opt_view(n))
}

pub open spec fn opt_view(n: Option<String>) -> Option<Seq<char>> {
    match n {
        Some(s) => Some(s@),
        None => None,
    }
}

/// The names that could be told.
pub open spec fn known_names(names: Seq<Option<Seq<char>>>) -> Seq<Seq<char>>
    decreases names.len(),
{
    if names.len() == 0 {
        Seq::empty()
    } else {
        match names.last() {
            Some(n) => known_names(names.drop_last()).push(n),
            None => known_names(names.drop_last()),
        }
    }
}

/// The device list to choose from: the devices whose name could be told.
pub fn device_names(found: &Vec<Option<String>>) -> (r: Vec<String>)
    ensures
        views(r@) == known_names(name_views(found@)),
{
    let ghost all = name_views(found@);
    let mut r: Vec<String> = Vec::new();
    let mut i: usize = 0;
    assert(views(r@) =~= known_names(all.take(0)));
    while i < found.len()
        invariant
            i <= found@.len(),
            all == name_views(found@),
            views(r@) == known_names(all.take(i as int)),
        decreases found@.len() - i,
    {
        assert(all.take(i + 1).drop_last() =~= all.take(i as int));
        assert(all.take(i + 1).last() == opt_view(found@[i as int]));
        if let Some(name) = &found[i] {
            let ghost before = views(r@);
            r.push(name.clone());
            assert(views(r@) =~= before.push(name@));
        }
        i += 1;
    }
    assert(all.take(i as int) =~= all);
    r
}

/// Which device to open.
#[derive(Debug, Clone, Copy, PartialEq, Eq, Structural)]
pub enum DeviceChoice {
    /// The one with this number in the list of devices.
    Listed(usize),
    /// The system's default.
    SystemDefault,
}

/// The number of the first device of that name.
pub open spec fn first_named(names: Seq<Option<Seq<char>>>, wanted: Seq<char>, i: usize) -> bool {
    &&& i < names.len()
    &&& names[i as int] == Some(wanted)
    &&& forall|j: int| 0 <= j < i ==> names[j] != Some(wanted)
}

/// Finds the wanted device among those that were found, by name, or the system's
/// default if none in particular is wanted.
pub fn resolve_device(
    direction: Direction,
    wanted: &Option<String>,
    found: &Vec<Option<String>>,
    has_default: bool,
) -> (r: Result<DeviceChoice, String>)
    ensures
        match *wanted {
            Some(name) => match r {
                Ok(choice) => choice is Listed && first_named(
                    name_views(found@),
                    name@,
                    choice->Listed_0,
                ),
                Err(e) => {
                    &&& !name_views(found@).contains(Some(name@))
                    &&& e@ == direction.word() + " device '"@ + name@ + "' not found"@
                },
            },
            None => match r {
                Ok(choice) => has_default && choice == DeviceChoice::SystemDefault,
                Err(e) => !has_default && e@ == "no default "@ + direction.word() + " device"@,
            },
        },
{
    match wanted {
        Some(name) => {
            let ghost all = name_views(found@);
            let mut i: usize = 0;
            while i < found.len()
                invariant
                    i <= found@.len(),
                    *wanted == Some(*name),
                    all == name_views(found@),
                    forall|j: int| 0 <= j < i ==> all[j] != Some(name@),
                decreases found@.len() - i,
            {
                assert(all[i as int] == opt_view(found@[i as int]));
                if let Some(other) = &found[i] {
                    if same(other.as_str(), name.as_str()) {
                        return Ok(DeviceChoice::Listed(i));
                    }
                }
                i += 1;
            }
            let e = concat3(direction.label(), " device '", name.as_str());
            Err(concat2(e.as_str(), "' not found"))
        },
        None => if has_default {
            Ok(DeviceChoice::SystemDefault)
        } else {
            Err(concat3("no default ", direction.label(), " device"))
        },
    }
}

/// The sample format a device runs with.
#[derive(Debug, Clone)]
pub enum SampleFormat {
    F32,
    I16,
    U16,
    /// Another one, by its name.
    Other(String),
}

/// How samples of a device are converted.
#[derive(Debug, Clone, Copy, PartialEq, Eq, Structural)]
pub enum Conversion {
    F32,
    I16,
    U16,
}

/// The conversion that a device needs, if its format is one of those that are
/// supported.
pub fn conversion(direction: Direction, format: &SampleFormat) -> (r: Result<Conversion, String>)
    ensures
        match *format {
            SampleFormat::F32 => r == Ok::<Conversion, String>(Conversion::F32),
            SampleFormat::I16 => r == Ok::<Conversion, String>(Conversion::I16),
            SampleFormat::U16 => r == Ok::<Conversion, String>(Conversion::U16),
            SampleFormat::Other(name) => r is Err && r->Err_0@ == "unsupported "@ + direction.word()
                + " sample format: "@ + name@,
        },
{
    match format {
        SampleFormat::F32 => Ok(Conversion::F32),
        SampleFormat::I16 => Ok(Conversion::I16),
        SampleFormat::U16 => Ok(Conversion::U16),
        SampleFormat::Other(name) => {
            let e = concat3("unsupported ", direction.label(), " sample format: ");
            Err(concat2(e.as_str(), name.as_str()))
        },
    }
}

// ---- Voice ------------------------------------------------------------------

/// The state of capture and playback. What it says is carried out by whoever
/// holds the streams, and the outcome is told back.
pub struct Voice {
    input_name: Option<String>,
    output_name: Option<String>,
    mic_on: bool,
    capturing: bool,
    out_rate: u32,
}

#[verifier::ext_equal]
pub struct VoiceView {
    /// The selected microphone; none means the system's default.
    pub input: Option<Seq<char>>,
    /// The selected speakers; none means the system's default.
    pub output: Option<Seq<char>>,
    /// The user wants to be heard.
    pub mic_on: bool,
    /// A capture stream is open.
    pub capturing: bool,
    /// The sample rate of the speakers.
    pub out_rate: u32,
}

impl View for Voice {
    type V = VoiceView;

    closed spec fn view(&self) -> VoiceView {
        VoiceView {
            input: opt_view(self.input_name),
            output: opt_view(self.output_name),
            mic_on: self.mic_on,
            capturing: self.capturing,
            out_rate: self.out_rate,
        }
    }
}

impl VoiceView {
    /// Switching the microphone needs a capture stream to be opened first.
    pub open spec fn must_open(self, on: bool) -> bool {
        on && !self.capturing
    }

    /// Nothing is captured while the microphone is off.
    pub open spec fn wf(self) -> bool {
        self.capturing ==> self.mic_on
    }

    /// The microphone was switched; `opened` says whether a capture stream could
    /// be opened, where one had to be.
    pub open spec fn after_mic(self, on: bool, opened: bool) -> VoiceView {
        if self.must_open(on) && !opened {
            self
        } else {
            VoiceView { mic_on: on, capturing: on, ..self }
        }
    }

    /// Another microphone was selected; `opened` says whether a capture stream
    /// could be opened on it, where one had to be.
    pub open spec fn after_input(self, name: Option<Seq<char>>, opened: bool) -> VoiceView {
        VoiceView {
            input: name,
            capturing: if self.mic_on {
                opened
            } else {
                self.capturing
            },
            ..self
        }
    }

    /// Other speakers were selected; `rate` is their sample rate, if they could
    /// be opened.
    pub open spec fn after_output(self, name: Option<Seq<char>>, rate: Option<u32>) -> VoiceView {
        match rate {
            Some(out_rate) => VoiceView { output: name, out_rate, ..self },
            None => self,
        }
    }
}

impl Voice {
    /// The speakers were opened; the microphone is off.
    pub fn new(out_rate: u32) -> (r: Self)
        ensures
            r@ == (VoiceView {
                input: None,
                output: None,
                mic_on: false,
                capturing: false,
                out_rate,
            }),
    {
        Voice { input_name: None, output_name: None, mic_on: false, capturing: false, out_rate }
    }

    pub fn input_name(&self) -> (r: &Option<String>)
        ensures
            opt_view(*r) == self@.input,
    {
        &self.input_name
    }

    pub fn output_name(&self) -> (r: &Option<String>)
        ensures
            opt_view(*r) == self@.output,
    {
        &self.output_name
    }

    pub fn mic_on(&self) -> (r: bool)
        ensures
            r == self@.mic_on,
    {
        self.mic_on
    }

    pub fn capturing(&self) -> (r: bool)
        ensures
            r == self@.capturing,
    {
        self.capturing
    }

    pub fn out_rate(&self) -> (r: u32)
        ensures
            r == self@.out_rate,
    {
        self.out_rate
    }

    /// Whether a capture stream has to be opened before `set_mic(on, ..)`.
    pub fn needs_capture(&self, on: bool) -> (r: bool)
        ensures
            r == self@.must_open(on),
    {
        on && !self.capturing
    }

    /// Switches the microphone. Where a capture stream had to be opened,
    /// `opened` says how that went, and a failure leaves everything as it was;
    /// elsewhere it does not matter.
    pub fn set_mic(&mut self, on: bool, opened: Result<(), String>) -> (r: Result<(), String>)
        ensures
            final(self)@ == old(self)@.after_mic(on, opened is Ok),
            r is Err <==> old(self)@.must_open(on) && opened is Err,
            r is Err ==> r->Err_0 == opened->Err_0,
    {
        if on && !self.capturing {
            match opened {
                Ok(()) => {
                    self.capturing = true;
                },
                Err(e) => {
                    return Err(e);
                },
            }
        } else if !on {
            self.capturing = false;
        }
        self.mic_on = on;
        Ok(())
    }

    /// Selects the microphone; `None` means the system's default. While the
    /// microphone is on, its capture stream is replaced by one on the new device,
    /// and `opened` says how that went; elsewhere it does not matter. A failure
    /// leaves the selection in place and nothing captured.
    pub fn set_input(&mut self, name: Option<String>, opened: Result<(), String>) -> (r: Result<
        (),
        String,
    >)
        ensures
            final(self)@ == old(self)@.after_input(opt_view(name), opened is Ok),
            r is Err <==> old(self)@.mic_on && opened is Err,
            r is Err ==> r->Err_0 == opened->Err_0,
    {
        self.input_name = name;
        if self.mic_on {
            self.capturing = false;
            match opened {
                Ok(()) => {
                    self.capturing = true;
                },
                Err(e) => {
                    return Err(e);
                },
            }
        }
        Ok(())
    }

    /// Selects the speakers; `None` means the system's default. `opened` says how
    /// opening them went, with their sample rate. A failure leaves everything as
    /// it was.
    pub fn set_output(&mut self, name: Option<String>, opened: Result<u32, String>) -> (r: Result<
        (),
        String,
    >)
        ensures
            final(self)@ == old(self)@.after_output(
                opt_view(name),
                match opened {
                    Ok(rate) => Some(rate),
                    Err(_) => None,
                },
            ),
            r is Err <==> opened is Err,
            r is Err ==> r->Err_0 == opened->Err_0,
    {
        match opened {
            Ok(rate) => {
                self.out_rate = rate;
                self.output_name = name;
                Ok(())
            },
            Err(e) => Err(e),
        }
    }
}

// ---- the device pickers -----------------------------------------------------

/// An entry of a device picker.
#[derive(Debug)]
pub struct DeviceOption {
    pub label: String,
    pub selected: bool,
}

#[verifier::ext_equal]
pub struct DeviceOptionView {
    pub label: Seq<char>,
    pub selected: bool,
}

impl View for DeviceOption {
    type V = DeviceOptionView;

    open spec fn view(&self) -> DeviceOptionView {
        DeviceOptionView { label: self.label@, selected: self.selected }
    }
}

/// The entries of a device picker: the system's default and then the devices.
pub open spec fn options(current: Option<Seq<char>>, devices: Seq<Seq<char>>) -> Seq<
    DeviceOptionView,
> {
    seq![DeviceOptionView { label: "Default"@, selected: current is None }]
        + devices.map_values(
        |d: Seq<char>| DeviceOptionView { label: d, selected: current == Some(d) },
    )
}

pub fn device_options(current: &Option<String>, devices: &Vec<String>) -> (r: Vec<DeviceOption>)
    ensures
        r@.map_values(|o: DeviceOption| o@) == options(opt_view(*current), views(devices@)),
{
    let ghost cur = opt_view(*current);
    let ghost all = views(devices@);
    let mut r: Vec<DeviceOption> = Vec::new();
    r.push(DeviceOption { label: "Default".to_owned(), selected: current.is_none() });
    let mut i: usize = 0;
    assert(r@.map_values(|o: DeviceOption| o@) =~= options(cur, all.take(0)));
    while i < devices.len()
        invariant
            i <= devices@.len(),
            cur == opt_view(*current),
            all == views(devices@),
            r@.map_values(|o: DeviceOption| o@) == options(cur, all.take(i as int)),
        decreases devices@.len() - i,
    {
        let d = &devices[i];
        let selected = match current {
            Some(name) => same(name.as_str(), d.as_str()),
            None => false,
        };
        let ghost before = r@.map_values(|o: DeviceOption| o@);
        let option = DeviceOption { label: d.clone(), selected };
        r.push(option);
        assert(r@.map_values(|o: DeviceOption| o@) =~= before.push(option@));
        assert(options(cur, all.take(i + 1)) =~= options(cur, all.take(i as int)).push(
            DeviceOptionView { label: d@, selected: cur == Some(d@) },
        ));
        i += 1;
    }
    assert(all.take(i as int) =~= all);
    r
}

/// What a picker shows while it is closed.
pub open spec fn shown(current: Option<Seq<char>>) -> Seq<char> {
    match current {
        Some(name) => name,
        None => "Default"@,
    }
}

/// What the picker shows while it is closed.
pub fn selected_text(current: &Option<String>) -> (r: String)
    ensures
        r@ == shown(opt_view(*current)),
{
    match current {
        Some(name) => name.clone(),
        None => "Default".to_owned(),
    }
}

/// The selection that entry `k` of a picker stands for.
pub open spec fn pick(k: int, devices: Seq<Seq<char>>) -> Option<Seq<char>> {
    if k == 0 {
        None
    } else {
        Some(devices[k - 1])
    }
}

pub fn picked(k: usize, devices: &Vec<String>) -> (r: Option<String>)
    requires
        k <= devices@.len(),
    ensures
        opt_view(r) == pick(k as int, views(devices@)),
{
    if k == 0 {
        None
    } else {
        Some(devices[k - 1].clone())
    }
}

// ---- laws -------------------------------------------------------------------

/// Whatever is switched and selected, and whichever device fails to open, nothing
/// is captured while the microphone is off; while no device fails, something is
/// captured whenever it is on.
pub proof fn capture_follows_the_microphone(
    v: VoiceView,
    on: bool,
    opened: bool,
    name: Option<Seq<char>>,
    rate: Option<u32>,
)
    requires
        v.wf(),
    ensures
        v.after_mic(on, opened).wf(),
        v.after_input(name, opened).wf(),
        v.after_output(name, rate).wf(),
        v.capturing == v.mic_on && opened ==> v.after_mic(on, opened).capturing == on
            && v.after_mic(on, opened).mic_on == on,
        v.capturing == v.mic_on && opened ==> v.after_input(name, opened).capturing == v.mic_on,
{
}

/// Switching the microphone off always works and stops the capture.
pub proof fn the_microphone_can_be_switched_off(v: VoiceView, opened: bool)
    ensures
        !v.must_open(false),
        !v.after_mic(false, opened).mic_on,
        !v.after_mic(false, opened).capturing,
{
}

/// What is picked shows as selected, and nothing under another label does.
pub proof fn picking_selects(k: int, devices: Seq<Seq<char>>, j: int)
    requires
        0 <= k <= devices.len(),
        0 < j <= devices.len(),
    ensures
        options(pick(k, devices), devices)[k].selected,
        options(pick(k, devices), devices)[0].selected <==> k == 0,
        options(pick(k, devices), devices)[j].selected <==> k != 0 && devices[j - 1] == devices[k - 1],
{
    let o = options(pick(k, devices), devices);
    if k > 0 {
        assert(o[k] == DeviceOptionView {
            label: devices[k - 1],
            selected: pick(k, devices) == Some(devices[k - 1]),
        });
    }
    assert(o[j] == DeviceOptionView {
        label: devices[j - 1],
        selected: pick(k, devices) == Some(devices[j - 1]),
    });
}

/// Switching the microphone has it and the capture on or off as asked for, unless
/// a stream had to be opened and could not be, which changes nothing. A stream
/// has to be opened exactly if the microphone is to be on and nothing is captured.
/// The devices stay as they are.
pub proof fn switching_does_as_asked(v: VoiceView, on: bool, opened: bool)
    ensures
        v.must_open(on) <==> on && !v.capturing,
        ({
            let w = v.after_mic(on, opened);
            &&& w.input == v.input
            &&& w.output == v.output
            &&& w.out_rate == v.out_rate
            &&& on && !v.capturing && !opened ==> w == v
            &&& !on || v.capturing || opened ==> w.mic_on == on && w.capturing == on
        }),
{
}

/// Picking a microphone selects it whether it can be opened or not. While the
/// microphone is on, it is captured if it can be opened, and nothing is if not;
/// while it is off, nothing else changes.
pub proof fn picking_a_microphone_selects_it(v: VoiceView, name: Option<Seq<char>>, opened: bool)
    ensures
        ({
            let w = v.after_input(name, opened);
            &&& w.input == name
            &&& w.mic_on == v.mic_on
            &&& w.output == v.output
            &&& w.out_rate == v.out_rate
            &&& v.mic_on ==> w.capturing == opened
            &&& !v.mic_on ==> w.capturing == v.capturing
        }),
{
}

/// Picking speakers selects them, with their sample rate, only if they can be
/// opened, and never touches the microphone.
pub proof fn picking_speakers_selects_what_opens(v: VoiceView, name: Option<Seq<char>>, rate: u32)
    ensures
        v.after_output(name, None) == v,
        v.after_output(name, Some(rate)).output == name,
        v.after_output(name, Some(rate)).out_rate == rate,
        v.after_output(name, Some(rate)).input == v.input,
        v.after_output(name, Some(rate)).mic_on == v.mic_on,
        v.after_output(name, Some(rate)).capturing == v.capturing,
{
}

/// The devices to choose from are those whose name could be told, in the order in
/// which they were found.
pub proof fn known_devices_are_offered_in_order(
    a: Seq<Option<Seq<char>>>,
    b: Seq<Option<Seq<char>>>,
    name: Seq<char>,
)
    ensures
        known_names(a + b) == known_names(a) + known_names(b),
        known_names(seq![Some(name)]) == seq![name],
        known_names(seq![None]) == Seq::<Seq<char>>::empty(),
        known_names(a).contains(name) <==> a.contains(Some(name)),
    decreases b.len(),
{
    let one = seq![Some(name)];
    assert(one.drop_last() =~= Seq::<Option<Seq<char>>>::empty());
    assert(known_names(one.drop_last()) =~= Seq::<Seq<char>>::empty());
    assert(known_names(one) =~= seq![name]);
    let none = seq![None::<Seq<char>>];
    assert(none.drop_last() =~= Seq::<Option<Seq<char>>>::empty());
    if b.len() == 0 {
        assert(a + b =~= a);
        assert(known_names(a + b) =~= known_names(a) + known_names(b));
    } else {
        known_devices_are_offered_in_order(a, b.drop_last(), name);
        assert((a + b).drop_last() =~= a + b.drop_last());
        assert((a + b).last() == b.last());
        assert(known_names(a + b) =~= known_names(a) + known_names(b));
    }
    lemma_known(a, name);
}

proof fn lemma_known(a: Seq<Option<Seq<char>>>, name: Seq<char>)
    ensures
        known_names(a).contains(name) <==> a.contains(Some(name)),
    decreases a.len(),
{
    if a.len() > 0 {
        let front = a.drop_last();
        let n = a.len() - 1;
        lemma_known(front, name);
        let out = known_names(a);
        let before = known_names(front);
        if before.contains(name) {
            let i = choose|i: int| 0 <= i < before.len() && before[i] == name;
            assert(out[i] == name);
        }
        if front.contains(Some(name)) {
            let i = choose|i: int| 0 <= i < front.len() && front[i] == Some(name);
            assert(a[i] == Some(name));
        }
        if a[n] == Some(name) {
            assert(out[before.len() as int] == name);
        }
        if out.contains(name) {
            let i = choose|i: int| 0 <= i < out.len() && out[i] == name;
            if i < before.len() {
                assert(before[i] == name);
            }
        }
        if a.contains(Some(name)) {
            let i = choose|i: int| 0 <= i < a.len() && a[i] == Some(name);
            if i < n {
                assert(front[i] == Some(name));
            }
        }
    }
}

/// The device that is found under a name bears it, and none before it does; so
/// there is at most one such device.
pub proof fn the_first_device_of_a_name_is_found(
    names: Seq<Option<Seq<char>>>,
    wanted: Seq<char>,
    i: usize,
    j: int,
)
    requires
        first_named(names, wanted, i),
    ensures
        i < names.len(),
        names[i as int] == Some(wanted),
        0 <= j < i ==> names[j] != Some(wanted),
{
}

/// A picker offers the system's default and then every device under its name.
pub proof fn pickers_offer_every_device(current: Option<Seq<char>>, devices: Seq<Seq<char>>, k: int)
    ensures
        options(current, devices).len() == devices.len() + 1,
        options(current, devices)[0].label == "Default"@,
        options(current, devices)[0].selected <==> current is None,
        0 < k <= devices.len() ==> {
            let option = options(current, devices)[k];
            &&& option.label == devices[k - 1]
            &&& option.selected <==> current == Some(devices[k - 1])
            &&& pick(k, devices) == Some(devices[k - 1])
        },
        pick(0, devices) is None,
{
}

/// A closed picker shows the label of the entry that is selected; so it shows what
/// was picked.
pub proof fn a_closed_picker_shows_the_selection(
    current: Option<Seq<char>>,
    devices: Seq<Seq<char>>,
    k: int,
)
    requires
        0 <= k <= devices.len(),
    ensures
        options(current, devices)[k].selected ==> shown(current) == options(
            current,
            devices,
        )[k].label,
        shown(pick(k, devices)) == options(current, devices)[k].label,
{
    pickers_offer_every_device(current, devices, k);
}

} // verus!

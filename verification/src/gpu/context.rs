//! Which device to use, from the settings `GPZIP_GPU` and `GPZIP_GPU_BACKEND`.
use crate::text;
use vstd::prelude::*;
use vstd::string::StringExecFns;

verus! {

/// Which graphics interfaces are looked at for devices.
#[derive(Debug, Clone, Copy, PartialEq, Eq, Structural)]
pub enum BackendFilter {
    Vulkan,
    Metal,
    Dx12,
    Gl,
    BrowserWebgpu,
    All,
    /// Vulkan, Metal and DX12.
    Primary,
}

/// The filter that a setting stands for. Without one, or with one that is not
/// understood, it is the primary interfaces.
pub open spec fn filter_for(setting: Option<Seq<char>>) -> BackendFilter {
    match setting {
        Some(s) => if s == "vulkan"@ {
            BackendFilter::Vulkan
        } else if s == "metal"@ {
            BackendFilter::Metal
        } else if s == "dx12"@ {
            BackendFilter::Dx12
        } else if s == "gl"@ {
            BackendFilter::Gl
        } else if s == "browser_webgpu"@ {
            BackendFilter::BrowserWebgpu
        } else if s == "all"@ {
            BackendFilter::All
        } else {
            BackendFilter::Primary
        },
        None => BackendFilter::Primary,
    }
}

/// A setting by its characters.
pub open spec fn setting_view(setting: Option<&str>) -> Option<Seq<char>> {
    match setting {
        Some(s) => Some(s@),
        None => None,
    }
}

/// Reads the setting `GPZIP_GPU_BACKEND`.
pub fn backends_from_setting(setting: Option<&str>) -> (r: BackendFilter)
    ensures
        r == filter_for(setting_view(setting)),
{
    match setting {
        Some(s) => if text::same_text(s, "vulkan") {
            BackendFilter::Vulkan
        } else if text::same_text(s, "metal") {
            BackendFilter::Metal
        } else if text::same_text(s, "dx12") {
            BackendFilter::Dx12
        } else if text::same_text(s, "gl") {
            BackendFilter::Gl
        } else if text::same_text(s, "browser_webgpu") {
            BackendFilter::BrowserWebgpu
        } else if text::same_text(s, "all") {
            BackendFilter::All
        } else {
            BackendFilter::Primary
        },
        None => BackendFilter::Primary,
    }
}

/// Which device is asked for.
#[derive(Debug, Clone, Copy, PartialEq, Eq, Structural)]
pub enum AdapterChoice {
    LowPower,
    HighPerformance,
    /// The n-th device that is found.
    Index(usize),
    /// The setting is not understood: warn, and take a high-performance device.
    NotUnderstood,
}

/// The device that a setting asks for.
pub open spec fn choice_for(setting: Option<Seq<char>>) -> AdapterChoice {
    match setting {
        Some(s) => if s == "low"@ {
            AdapterChoice::LowPower
        } else if s == "high"@ {
            AdapterChoice::HighPerformance
        } else {
            match text::parsed_number(s, usize::MAX as nat) {
                Some(n) => AdapterChoice::Index(n as usize),
                None => AdapterChoice::NotUnderstood,
            }
        },
        None => AdapterChoice::HighPerformance,
    }
}

/// Reads the setting `GPZIP_GPU`.
pub fn adapter_from_setting(setting: Option<&str>) -> (r: AdapterChoice)
    ensures
        r == choice_for(setting_view(setting)),
{
    match setting {
        Some(s) => if text::same_text(s, "low") {
            AdapterChoice::LowPower
        } else if text::same_text(s, "high") {
            AdapterChoice::HighPerformance
        } else {
            match text::parse_number(s) {
                Some(n) => AdapterChoice::Index(n),
                None => AdapterChoice::NotUnderstood,
            }
        },
        None => AdapterChoice::HighPerformance,
    }
}

/// Why no device could be had.
#[derive(Debug)]
pub enum InitError {
    NoAdapter,
    DeviceRequest(String),
    BadIndex { requested: usize, available: usize },
}

impl InitError {
    /// The message shown to users.
    pub open spec fn message_spec(self) -> Seq<char> {
        match self {
            InitError::NoAdapter => "no compatible GPU adapter found"@,
            InitError::DeviceRequest(e) => "device request failed: "@ + e@,
            InitError::BadIndex { requested, available } => "GPZIP_GPU="@ + text::decimal_chars(
                requested as nat,
            ) + " but only "@ + text::decimal_chars(available as nat) + " adapter(s) available"@,
        }
    }

    pub fn message(&self) -> (r: String)
        ensures
            r@ == self.message_spec(),
    {
        match self {
            InitError::NoAdapter => "no compatible GPU adapter found".to_owned(),
            InitError::DeviceRequest(e) => "device request failed: ".to_owned().concat(e.as_str()),
            InitError::BadIndex { requested, available } => "GPZIP_GPU=".to_owned().concat(
                text::decimal(*requested as u64).as_str(),
            ).concat(" but only ").concat(text::decimal(*available as u64).as_str()).concat(
                " adapter(s) available",
            ),
        }
    }
}

/// Whether the n-th of the devices that were found exists.
pub fn check_index(requested: usize, available: usize) -> (r: Result<usize, InitError>)
    ensures
        requested < available ==> r == Ok::<usize, InitError>(requested),
        requested >= available ==> r == Err::<usize, InitError>(
            InitError::BadIndex { requested, available },
        ),
{
    if requested < available {
        Ok(requested)
    } else {
        Err(InitError::BadIndex { requested, available })
    }
}

/// Each graphics interface has one name, by which alone it is asked for; whatever
/// else is asked for, or nothing, means the primary ones.
pub proof fn law_interfaces_by_name(setting: Option<&str>, r: BackendFilter)
    requires
        call_ensures(backends_from_setting, (setting,), r),
    ensures
        r is Vulkan <==> setting is Some && (setting->0)@ == "vulkan"@,
        r is Metal <==> setting is Some && (setting->0)@ == "metal"@,
        r is Dx12 <==> setting is Some && (setting->0)@ == "dx12"@,
        r is Gl <==> setting is Some && (setting->0)@ == "gl"@,
        r is BrowserWebgpu <==> setting is Some && (setting->0)@ == "browser_webgpu"@,
        r is All <==> setting is Some && (setting->0)@ == "all"@,
{
    reveal_strlit("vulkan");
    reveal_strlit("metal");
    reveal_strlit("dx12");
    reveal_strlit("gl");
    reveal_strlit("browser_webgpu");
    reveal_strlit("all");
    assert("metal"@[0] != "all"@[0]);
    assert("vulkan"@.len() == 6 && "metal"@.len() == 5 && "dx12"@.len() == 4 && "gl"@.len() == 2
        && "browser_webgpu"@.len() == 14 && "all"@.len() == 3);
}

/// A device is asked for by `low`, by `high`, or by its number, which may be any;
/// without a setting it is a high-performance one.
pub proof fn law_devices_by_setting(setting: Option<&str>, r: AdapterChoice, n: usize)
    requires
        call_ensures(adapter_from_setting, (setting,), r),
    ensures
        r is LowPower <==> setting is Some && (setting->0)@ == "low"@,
        r is HighPerformance <==> setting is None || (setting->0)@ == "high"@,
        setting is Some && (setting->0)@ == text::decimal_chars(n as nat) ==> r
            == AdapterChoice::Index(n),
{
    reveal_strlit("low");
    reveal_strlit("high");
    assert("low"@.len() == 3 && "high"@.len() == 4);
    assert("low"@[0] == 'l' && "high"@[0] == 'h');
    if setting is Some && (setting->0)@ == text::decimal_chars(n as nat) {
        text::law_decimal_is_read_back(n as nat, usize::MAX as nat);
        text::lemma_decimal(n as nat);
        let c = text::decimal_chars(n as nat)[0];
        assert(48 <= c as int <= 57);
    }
}

/// A message says why there is no device, with the numbers that were compared.
pub proof fn law_device_messages(e: InitError, r: String)
    requires
        call_ensures(InitError::message, (&e,), r),
    ensures
        e is NoAdapter ==> r@ == "no compatible GPU adapter found"@,
        e matches InitError::DeviceRequest(m) ==> r@ == "device request failed: "@ + m@,
        e matches InitError::BadIndex { requested, available } ==> r@ == "GPZIP_GPU="@
            + text::decimal_chars(requested as nat) + " but only "@ + text::decimal_chars(
            available as nat,
        ) + " adapter(s) available"@,
{
}

} // verus!

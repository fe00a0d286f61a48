//! Start-up configuration: what the configuration file holds, and the choice
//! of audio devices from the file and the command line.
use crate::hotkey::{all_digits, is_digit};
use vstd::prelude::*;

verus! {

/// One playable clip of the configuration file.
#[derive(Clone, Debug, PartialEq)]
pub struct SoundConfig {
    pub name: String,
    pub path: String,
    pub hotkey: Option<String>,
}

/// The configuration file's content.
#[derive(Clone, Debug, Default)]
pub struct Config {
    pub input_device: Option<usize>,
    pub output_device: Option<usize>,
    pub loopback_device: Option<usize>,
    pub stop_hotkey: Option<String>,
    pub sounds: Option<Vec<SoundConfig>>,
}

/// Why the configuration cannot be used.
#[derive(Clone, Copy, Debug, PartialEq, Eq, Structural)]
pub enum ConfigError {
    /// Neither the command line nor the file names a loopback device.
    NoLoopbackDevice,
    /// A device index on the command line is not a decimal number that fits.
    NotANumber,
    /// A device index is not below the number of devices present.
    DeviceOutOfRange,
}

/// The value of a string of decimal digits.
pub open spec fn decimal_value(t: Seq<char>) -> int
    decreases t.len(),
{
    if t.len() == 0 {
        0
    } else {
        decimal_value(t.drop_last()) * 10 + (t.last() as u32 - 48)
    }
}

/// The digits of a device index: the text after an optional leading `+`.
pub open spec fn digits_of(t: Seq<char>) -> Seq<char> {
    if t.len() > 0 && t[0] == '+' {
        t.drop_first()
    } else {
        t
    }
}

/// What a device index given as text means, if anything: an optional `+`
/// and at least one decimal digit, with a value that fits in `usize`.
pub open spec fn index_spec(t: Seq<char>) -> Option<usize> {
    let d = digits_of(t);
    if all_digits(d) && decimal_value(d) <= usize::MAX {
        Some(decimal_value(d) as usize)
    } else {
        None
    }
}

proof fn lemma_decimal_grows(t: Seq<char>, i: int)
    requires
        0 <= i <= t.len(),
        forall|j: int| 0 <= j < t.len() ==> is_digit(#[trigger] t[j]),
    ensures
        decimal_value(t) >= decimal_value(t.take(i)) >= 0,
    decreases t.len() - i,
{
    if i < t.len() {
        lemma_decimal_grows(t, i + 1);
        assert(t.take(i + 1).drop_last() =~= t.take(i));
        assert(t.take(i + 1).last() == t[i]);
        lemma_decimal_nonneg(t.take(i));
    } else {
        assert(t.take(i) =~= t);
        lemma_decimal_nonneg(t);
    }
}

proof fn lemma_decimal_nonneg(t: Seq<char>)
    requires
        forall|j: int| 0 <= j < t.len() ==> is_digit(#[trigger] t[j]),
    ensures
        decimal_value(t) >= 0,
    decreases t.len(),
{
    if t.len() > 0 {
        lemma_decimal_nonneg(t.drop_last());
        assert(is_digit(t[t.len() - 1]));
    }
}

/// Reads a device index: decimal digits, optionally after a `+`.
pub fn parse_index(text: &str) -> (r: Option<usize>)
    ensures
        r == index_spec(text@),
{
    let n = text.unicode_len();
    let start: usize = if n > 0 && text.get_char(0) == '+' {
        1
    } else {
        0
    };
    let ghost d = text@.subrange(start as int, n as int);
    proof {
        assert(d =~= digits_of(text@));
    }
    if n == start {
        return None;
    }
    let mut v: usize = 0;
    let mut i: usize = start;
    while i < n
        invariant
            start <= i <= n,
            n == text@.len(),
            d == text@.subrange(start as int, n as int),
            d.len() > 0,
            d == digits_of(text@),
            forall|j: int| 0 <= j < i - start ==> is_digit(#[trigger] d[j]),
            v as int == decimal_value(d.take(i - start)),
        decreases n - i,
    {
        let c = text.get_char(i);
        let d = c as u32;
        let ghost k = i - start;
        proof {
            let dd = text@.subrange(start as int, n as int);
            assert(dd.take(k + 1).drop_last() =~= dd.take(k));
            assert(dd.take(k + 1).last() == c);
            assert(dd[k] == c);
        }
        if d < 48 || d > 57 {
            return None;
        }
        let next = match v.checked_mul(10) {
            Some(x) => x.checked_add((d - 48) as usize),
            None => None,
        };
        match next {
            Some(x) => {
                v = x;
            },
            None => {
                proof {
                    let dd = text@.subrange(start as int, n as int);
                    if all_digits(dd) {
                        lemma_decimal_grows(dd, k + 1);
                    }
                }
                return None;
            },
        }
        i += 1;
    }
    proof {
        assert(d.take(d.len() as int) =~= d);
    }
    Some(v)
}

/// The device index that the command line gives, else the one of the file.
pub open spec fn choose_index(arg: Option<Seq<char>>, file: Option<usize>) -> Result<
    Option<usize>,
    ConfigError,
> {
    match arg {
        Some(t) => match index_spec(t) {
            Some(v) => Ok(Some(v)),
            None => Err(ConfigError::NotANumber),
        },
        None => Ok(file),
    }
}

pub open spec fn opt_view(a: Option<&str>) -> Option<Seq<char>> {
    match a {
        Some(t) => Some(t@),
        None => None,
    }
}

fn pick_index(arg: Option<&str>, file: Option<usize>) -> (r: Result<Option<usize>, ConfigError>)
    ensures
        r == choose_index(opt_view(arg), file),
{
    match arg {
        Some(t) => match parse_index(t) {
            Some(v) => Ok(Some(v)),
            None => Err(ConfigError::NotANumber),
        },
        None => Ok(file),
    }
}

/// The input, output and loopback device indices: the command line's, where
/// it gives one, else the configuration file's. The loopback device is
/// required.
pub fn parse_devices(
    config: &Config,
    input_arg: Option<&str>,
    output_arg: Option<&str>,
    loopback_arg: Option<&str>,
) -> (r: Result<(Option<usize>, Option<usize>, usize), ConfigError>)
    ensures
        ({
            let i = choose_index(opt_view(input_arg), config.input_device);
            let o = choose_index(opt_view(output_arg), config.output_device);
            let l = choose_index(opt_view(loopback_arg), config.loopback_device);
            if i is Err {
                r == Err::<(Option<usize>, Option<usize>, usize), ConfigError>(i->Err_0)
            } else if o is Err {
                r == Err::<(Option<usize>, Option<usize>, usize), ConfigError>(o->Err_0)
            } else if l is Err {
                r == Err::<(Option<usize>, Option<usize>, usize), ConfigError>(l->Err_0)
            } else if l->Ok_0 is None {
                r == Err::<(Option<usize>, Option<usize>, usize), ConfigError>(
                    ConfigError::NoLoopbackDevice,
                )
            } else {
                r == Ok::<(Option<usize>, Option<usize>, usize), ConfigError>(
                    (i->Ok_0, o->Ok_0, l->Ok_0->Some_0),
                )
            }
        }),
{
    let input = match pick_index(input_arg, config.input_device) {
        Ok(v) => v,
        Err(e) => {
            return Err(e);
        },
    };
    let output = match pick_index(output_arg, config.output_device) {
        Ok(v) => v,
        Err(e) => {
            return Err(e);
        },
    };
    let lp = match pick_index(loopback_arg, config.loopback_device) {
        Ok(v) => v,
        Err(e) => {
            return Err(e);
        },
    };
    match lp {
        Some(l) => Ok((input, output, l)),
        None => Err(ConfigError::NoLoopbackDevice),
    }
}

/// Accepts a device index only if it is below the number of devices that
/// the platform lists.
pub fn select_device(index: usize, device_count: usize) -> (r: Result<usize, ConfigError>)
    ensures
        index < device_count ==> r == Ok::<usize, ConfigError>(index),
        index >= device_count ==> r == Err::<usize, ConfigError>(ConfigError::DeviceOutOfRange),
{
    if index < device_count {
        Ok(index)
    } else {
        Err(ConfigError::DeviceOutOfRange)
    }
}

} // verus!

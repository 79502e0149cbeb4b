//! Decoded sounds.

use vstd::prelude::*;

verus! {

/// A sound in memory: interleaved samples, with the rate and the number of
/// channels they were recorded at.
#[derive(Clone, Debug)]
pub struct Sound {
    pub data: Vec<i16>,
    pub sample_rate: u32,
    pub channels: u8,
}

/// The most channels that a sound may have.
pub const MAX_CHANNELS: u8 = 2;

/// The samples of the packets, one packet after the other.
pub open spec fn joined(packets: Seq<Vec<i16>>) -> Seq<i16>
    decreases packets.len(),
{
    if packets.len() == 0 {
        Seq::empty()
    } else {
        joined(packets.drop_last()) + packets.last()@
    }
}

/// Whether a stream with this many channels can be played.
pub fn channels_supported(audio_channels: u8) -> (supported: bool)
    ensures
        supported == (audio_channels <= MAX_CHANNELS),
{
    audio_channels <= MAX_CHANNELS
}

/// The sound of a decoded stream: its packets on end. There is none for a
/// stream of more than two channels.
pub fn load_ogg(audio_channels: u8, audio_sample_rate: u32, packets: &Vec<Vec<i16>>) -> (sound:
    Option<Sound>)
    ensures
        sound is Some <==> audio_channels <= MAX_CHANNELS,
        sound matches Some(s) ==> s.data@ == joined(packets@) && s.sample_rate
            == audio_sample_rate && s.channels == audio_channels,
{
    if !channels_supported(audio_channels) {
        return None;
    }
    let mut data: Vec<i16> = Vec::new();
    let mut p: usize = 0;
    while p < packets.len()
        invariant
            0 <= p <= packets.len(),
            data@ == joined(packets@.take(p as int)),
        decreases packets.len() - p,
    {
        let packet = &packets[p];
        let ghost before = data@;
        let mut k: usize = 0;
        while k < packet.len()
            invariant
                0 <= k <= packet.len(),
                data@ == before + packet@.take(k as int),
            decreases packet.len() - k,
        {
            data.push(packet[k]);
            proof {
                assert(packet@.take(k + 1) =~= packet@.take(k as int).push(packet@[k as int]));
                assert(data@ =~= before + packet@.take(k + 1));
            }
            k = k + 1;
        }
        proof {
            assert(packet@.take(packet.len() as int) =~= packet@);
            let seen = packets@.take(p + 1);
            assert(seen.drop_last() =~= packets@.take(p as int));
            assert(seen.last() == packets@[p as int]);
        }
        p = p + 1;
    }
    proof {
        assert(packets@.take(packets.len() as int) =~= packets@);
    }
    Some(Sound { data, sample_rate: audio_sample_rate, channels: audio_channels })
}

} // verus!

use futures_util::{future, TryStream, TryStreamExt};
use nrtm_parser::streaming::{decode_chunk, NRTMDec, NRTMStreamError};
use nrtm_parser::{NRTMMessage, ParseError};
use re_delimiter_codec::REDelimiterCodecError;
use std::io::{Error as IOError, ErrorKind};
use tokio::io::AsyncRead;
use tokio_test::io::Builder;
use tokio_util::codec::FramedRead;

const TEST_MAX_CHUNK_LEN: usize = 131072; // 128K

fn stream<T: AsyncRead + Unpin>(
    decoder: NRTMDec,
    reader: T,
) -> impl TryStream<Ok = NRTMMessage, Error = NRTMStreamError> + Unpin {
    let codec = decoder.preparser();
    FramedRead::new(reader, codec)
        .map_err(NRTMStreamError::REDelimiterCodec)
        .and_then(move |chunk| future::ready(decoder.parse_chunk(&decode_chunk(chunk.as_ref()))))
}

fn run<F: std::future::Future>(f: F) -> F::Output {
    tokio::runtime::Builder::new_current_thread()
        .enable_all()
        .build()
        .unwrap()
        .block_on(f)
}

#[test]
fn v3_parser_error_signalled() {
    run(async {
        let decoder = NRTMDec::new_v3(TEST_MAX_CHUNK_LEN);
        let mut reader = stream(
            decoder,
            &b"\
ADD 324876

object: property
\\xxt*some-more: properties
end-of: object

"[..],
        );
        assert!(matches!(
            reader.try_next().await,
            Err(NRTMStreamError::Parser(ParseError::Parser(_)))
        ));
    })
}

#[test]
fn v3_malformed_serial_signalled() {
    run(async {
        let decoder = NRTMDec::new_v3(TEST_MAX_CHUNK_LEN);
        let mut reader = stream(
            decoder,
            &b"\
# should not fit into u64
ADD 99999999999999999999

start-field:    yes
netname:        TRANSPORT-NET

"[..],
        );
        assert!(matches!(
            reader.try_next().await,
            Err(NRTMStreamError::Parser(ParseError::MalformedSerial(_, _)))
        ));
    })
}

#[test]
fn v3_io_error_signalled() {
    run(async {
        let nrtmv3_truncated_message = b"\
ADD 324876

object: property
some-more: properties
end-of: object

ADD 324876

object: property
some-more: properties
end-of: obj
";
        let ioerroring_sample = Builder::new()
            .read(nrtmv3_truncated_message)
            .read_error(IOError::new(ErrorKind::BrokenPipe, "connection closed"))
            .build();
        let decoder = NRTMDec::new_v3(TEST_MAX_CHUNK_LEN);
        let mut reader = stream(decoder, ioerroring_sample);

        reader.try_next().await.unwrap().unwrap(); // chuck first object
        assert!(matches!(
            reader.try_next().await,
            Err(NRTMStreamError::REDelimiterCodec(REDelimiterCodecError::Io(_)))
        ));
    })
}

#[test]
fn prelude_without_operation_is_incomplete() {
    run(async {
        let decoder = NRTMDec::new_v3(TEST_MAX_CHUNK_LEN);
        let mut reader = stream(
            decoder,
            &b"\
% The RIPE Database is subject to Terms and Conditions.
% See https://docs.db.ripe.net/terms-conditions.html

% lou: I am commenting that out, as in rx only stream
% commands will not appear
% -kg RIPE:3:65776764-LAST
%START Version: 3 RIPE 65776764-65776784
# comment
"[..],
        );

        // the codec hands out the bytes left at the end of the stream as a last chunk
        assert!(matches!(
            reader.try_next().await,
            Err(NRTMStreamError::Parser(ParseError::Incomplete))
        ));
    })
}

#[test]
fn stream_of_several_operations() {
    run(async {
        let decoder = NRTMDec::new_v3(TEST_MAX_CHUNK_LEN);
        let mut reader = stream(
            decoder,
            &b"\
% comment line
%START Version: 3 RIPE 1-3

ADD 1

object-typ:     yes
garbled:        maybe

DEL 2

object-typ:     yes
garbled:        maybe

ADD 3

object-typ:     yes
garbled:        maybe

"[..],
        );
        let mut serials = Vec::new();
        while let Some(m) = reader.try_next().await.unwrap() {
            match m.update {
                nrtm_parser::OpType::V3(_, s) => serials.push(s),
                other => panic!("unexpected {:?}", other),
            }
        }
        assert_eq!(serials, vec![1, 2, 3]);
    })
}

use scrypt::{scrypt, ScryptParams};
use task_maker::channel::{
    decrypt_buffer, decrypt_header, derive_key_from_password, encrypt_buffer, expect_local_file, expect_message,
    expect_raw_file, frame_extra_blocks, raw_file_message, ChannelError, ChannelMessage, FileProtocol, RawFileStep,
};

fn key() -> Vec<u8> {
    vec![1u8, 2, 3, 4, 5, 6, 7, 8, 9, 10, 11, 12, 13, 14, 15, 16]
}

#[test]
fn encrypted_frames_roundtrip() {
    for data in [vec![], vec![1u8, 2, 3, 4], vec![69u8; 12345], vec![7u8; 8], vec![7u8; 9], vec![7u8; 24]] {
        let frame = encrypt_buffer(data.clone(), &key());
        assert_eq!(frame.len(), 16 * (1 + frame_extra_blocks(data.len())));
        assert_eq!(decrypt_header(&key(), &frame[0..16]), Ok(data.len()));
        assert_eq!(decrypt_buffer(&key(), &frame), Ok(data.clone()));
        // the frame is not the plain payload
        if data.len() >= 16 {
            assert_ne!(&frame[8..16], &data[0..8]);
        }
    }
}

#[test]
fn wrong_key_is_detected() {
    let frame = encrypt_buffer(vec![69u8; 12345], &vec![42u8; 16]);
    assert_eq!(decrypt_buffer(&vec![69u8; 16], &frame), Err(ChannelError::WrongEncryptionKey));
    assert_eq!(decrypt_header(&vec![69u8; 16], &frame[0..16]), Err(ChannelError::WrongEncryptionKey));
}

#[test]
fn truncated_frame_is_detected() {
    let frame = encrypt_buffer(vec![1u8; 40], &key());
    assert_eq!(decrypt_buffer(&key(), &frame[0..32]), Err(ChannelError::TruncatedFrame));
}

#[test]
fn frame_sizes() {
    assert_eq!(frame_extra_blocks(0), 0);
    assert_eq!(frame_extra_blocks(8), 0);
    assert_eq!(frame_extra_blocks(9), 1);
    assert_eq!(frame_extra_blocks(24), 1);
    assert_eq!(frame_extra_blocks(25), 2);
}

#[test]
fn password_keys() {
    let mut expected = [0u8; 32];
    scrypt(b"hunter2", b"task-maker", &ScryptParams::new(8, 8, 1).unwrap(), &mut expected).unwrap();
    assert_eq!(derive_key_from_password("hunter2"), expected);
    assert_ne!(derive_key_from_password("hunter2"), derive_key_from_password("hunter3"));
}

#[test]
fn channel_messages() {
    assert_eq!(expect_message(ChannelMessage::Message(5u32)), Ok(5));
    assert_eq!(expect_message::<u32>(ChannelMessage::RawFileEnd), Err(ChannelError::ExpectedMessage));
    assert_eq!(
        expect_local_file::<u32>(ChannelMessage::FileProtocol(FileProtocol::Data(vec![1, 2]))),
        Ok(FileProtocol::Data(vec![1, 2]))
    );
    assert_eq!(expect_local_file(ChannelMessage::Message(1u8)), Err(ChannelError::ExpectedFileProtocol));
    assert_eq!(expect_raw_file::<u8>(ChannelMessage::RawFileData(9)), Ok(RawFileStep::Data(9)));
    assert_eq!(expect_raw_file::<u8>(ChannelMessage::RawFileEnd), Ok(RawFileStep::End));
    assert_eq!(expect_raw_file(ChannelMessage::Message(0u8)), Err(ChannelError::ExpectedRawFile));
    assert!(matches!(raw_file_message::<u8>(&FileProtocol::Data(vec![1, 2, 3])), ChannelMessage::RawFileData(3)));
    assert!(matches!(raw_file_message::<u8>(&FileProtocol::End), ChannelMessage::RawFileEnd));
}

#[test]
fn channel_error_messages() {
    assert_eq!(ChannelError::ExpectedMessage.message(), "Expected ChannelMessage::Message");
    assert_eq!(ChannelError::ExpectedFileProtocol.message(), "Expected ChannelMessage::FileProtocol");
    assert_eq!(
        ChannelError::ExpectedRawFile.message(),
        "Expected ChannelMessage::RawFileData or ChannelMessage::RawFileEnd"
    );
    assert_eq!(ChannelError::WrongEncryptionKey.message(), "Wrong encryption key");
}
